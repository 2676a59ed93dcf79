//! The header of the statistics table that summarises analysed tracks.

use vstd::prelude::*;

verus! {

/// The four statistics reported for every feature.
pub open spec fn stat_suffixes() -> Seq<Seq<char>> {
    seq!["min"@, "max"@, "avg"@, "med"@]
}

/// The four columns of a feature: its name, an underscore and a statistic.
pub open spec fn stat_columns(field: Seq<char>) -> Seq<Seq<char>> {
    stat_suffixes().map_values(|s: Seq<char>| field + "_"@ + s)
}

/// The name of band `i`: the configured one, or `unknown` past the
/// configured bands.
pub open spec fn band_label(names: Seq<Seq<char>>, i: int) -> Seq<char> {
    if 0 <= i < names.len() {
        names[i]
    } else {
        "unknown"@
    }
}

/// The columns of the first `count` bands of a band feature: each band's
/// four statistics, named after the feature and the band.
pub open spec fn band_columns(kind: Seq<char>, names: Seq<Seq<char>>, count: nat) -> Seq<
    Seq<char>,
>
    decreases count,
{
    if count == 0 {
        seq![]
    } else {
        band_columns(kind, names, (count - 1) as nat) + stat_columns(
            kind + "_"@ + band_label(names, count - 1),
        )
    }
}

/// The per-frame features that follow the band columns.
pub open spec fn gameplay_fields() -> Seq<Seq<char>> {
    seq![
        "lane_left"@,
        "lane_center"@,
        "lane_right"@,
        "energy"@,
        "event"@,
        "texture"@,
        "beat_strength"@,
    ]
}

/// The columns of several features, in order.
pub open spec fn fields_columns(fields: Seq<Seq<char>>) -> Seq<Seq<char>>
    decreases fields.len(),
{
    if fields.len() == 0 {
        seq![]
    } else {
        fields_columns(fields.drop_last()) + stat_columns(fields.last())
    }
}

/// The whole header: the file name, the statistics of the whole-frame
/// features, of each band's energy and flux, and of the gameplay features.
pub open spec fn csv_header_columns(
    band_energy_count: nat,
    band_flux_count: nat,
    names: Seq<Seq<char>>,
) -> Seq<Seq<char>> {
    seq!["filename"@] + fields_columns(seq!["rms"@, "spectral_flux"@, "spectral_flatness"@])
        + band_columns("band_energy"@, names, band_energy_count) + band_columns(
        "band_flux"@,
        names,
        band_flux_count,
    ) + fields_columns(gameplay_fields())
}

proof fn lemma_stat_columns_at(f: Seq<char>, m: int)
    requires
        0 <= m < 4,
    ensures
        stat_columns(f).len() == 4,
        stat_columns(f)[m] == f + "_"@ + seq!["min"@, "max"@, "avg"@, "med"@][m],
{
}

proof fn lemma_fields_columns_len(fs: Seq<Seq<char>>)
    ensures
        fields_columns(fs).len() == 4 * fs.len(),
    decreases fs.len(),
{
    if fs.len() > 0 {
        lemma_fields_columns_len(fs.drop_last());
        lemma_stat_columns_at(fs.last(), 0);
    }
}

proof fn lemma_fields_columns_at(fs: Seq<Seq<char>>, k: int, m: int)
    requires
        0 <= k < fs.len(),
        0 <= m < 4,
    ensures
        fields_columns(fs)[4 * k + m] == fs[k] + "_"@ + seq!["min"@, "max"@, "avg"@, "med"@][m],
    decreases fs.len(),
{
    let d = fs.drop_last();
    lemma_fields_columns_len(d);
    lemma_stat_columns_at(fs.last(), m);
    if k < fs.len() - 1 {
        lemma_fields_columns_at(d, k, m);
        assert(d[k] == fs[k]);
    }
}

proof fn lemma_band_columns_len(kind: Seq<char>, names: Seq<Seq<char>>, count: nat)
    ensures
        band_columns(kind, names, count).len() == 4 * count,
    decreases count,
{
    if count > 0 {
        lemma_band_columns_len(kind, names, (count - 1) as nat);
        lemma_stat_columns_at(kind + "_"@ + band_label(names, count - 1), 0);
    }
}

proof fn lemma_band_columns_at(kind: Seq<char>, names: Seq<Seq<char>>, count: nat, j: int, m: int)
    requires
        0 <= j < count,
        0 <= m < 4,
    ensures
        band_columns(kind, names, count)[4 * j + m] == kind + "_"@ + (if j < names.len() {
            names[j]
        } else {
            "unknown"@
        }) + "_"@ + seq!["min"@, "max"@, "avg"@, "med"@][m],
    decreases count,
{
    let c1 = (count - 1) as nat;
    lemma_band_columns_len(kind, names, c1);
    lemma_stat_columns_at(kind + "_"@ + band_label(names, count - 1), m);
    if j < count - 1 {
        lemma_band_columns_at(kind, names, c1, j, m);
    }
}

/// The layout of the statistics header: the file name; the four statistics
/// (min, max, avg, med) of rms, spectral_flux and spectral_flatness; those
/// of each band's energy and then of each band's flux, named after the
/// band (or `unknown` past the named bands); and those of lane_left,
/// lane_center, lane_right, energy, event, texture and beat_strength, the
/// order in which each row writes them.
pub proof fn lemma_csv_header_layout(be: nat, bf: nat, names: Seq<Seq<char>>)
    ensures
        csv_header_columns(be, bf, names).len() == 41 + 4 * (be + bf),
        csv_header_columns(be, bf, names)[0] == "filename"@,
{
    lemma_fields_columns_len(seq!["rms"@, "spectral_flux"@, "spectral_flatness"@]);
    lemma_band_columns_len("band_energy"@, names, be);
    lemma_band_columns_len("band_flux"@, names, bf);
    lemma_fields_columns_len(gameplay_fields());
}

/// Columns 1 to 12 of the header: for the `k`-th of rms, spectral_flux and
/// spectral_flatness, its `m`-th statistic of min, max, avg and med.
pub proof fn lemma_csv_header_frame_column(be: nat, bf: nat, names: Seq<Seq<char>>, k: int, m: int)
    requires
        0 <= k < 3,
        0 <= m < 4,
    ensures
        csv_header_columns(be, bf, names)[1 + 4 * k + m] == seq![
            "rms"@,
            "spectral_flux"@,
            "spectral_flatness"@,
        ][k] + "_"@ + seq!["min"@, "max"@, "avg"@, "med"@][m],
{
    let f = seq!["rms"@, "spectral_flux"@, "spectral_flatness"@];
    lemma_fields_columns_len(f);
    lemma_fields_columns_at(f, k, m);
    lemma_band_columns_len("band_energy"@, names, be);
    lemma_band_columns_len("band_flux"@, names, bf);
}

/// The band columns: the `m`-th statistic of band `j`'s energy stands at
/// `13 + 4 * j + m`, and that of band `j`'s flux `4 * be` further on, each
/// named after the band, or `unknown` past the named bands.
pub proof fn lemma_csv_header_band_column(
    be: nat,
    bf: nat,
    names: Seq<Seq<char>>,
    j: int,
    m: int,
)
    requires
        0 <= m < 4,
        0 <= j,
    ensures
        j < be ==> csv_header_columns(be, bf, names)[13 + 4 * j + m] == "band_energy"@ + "_"@
            + (if j < names.len() {
            names[j]
        } else {
            "unknown"@
        }) + "_"@ + seq!["min"@, "max"@, "avg"@, "med"@][m],
        j < bf ==> csv_header_columns(be, bf, names)[13 + 4 * be + 4 * j + m] == "band_flux"@
            + "_"@ + (if j < names.len() {
            names[j]
        } else {
            "unknown"@
        }) + "_"@ + seq!["min"@, "max"@, "avg"@, "med"@][m],
{
    lemma_fields_columns_len(seq!["rms"@, "spectral_flux"@, "spectral_flatness"@]);
    lemma_band_columns_len("band_energy"@, names, be);
    lemma_band_columns_len("band_flux"@, names, bf);
    if j < be {
        lemma_band_columns_at("band_energy"@, names, be, j, m);
    }
    if j < bf {
        lemma_band_columns_at("band_flux"@, names, bf, j, m);
    }
}

/// The last 28 columns: for the `k`-th of lane_left, lane_center,
/// lane_right, energy, event, texture and beat_strength, its `m`-th
/// statistic of min, max, avg and med.
pub proof fn lemma_csv_header_gameplay_column(
    be: nat,
    bf: nat,
    names: Seq<Seq<char>>,
    k: int,
    m: int,
)
    requires
        0 <= k < 7,
        0 <= m < 4,
    ensures
        csv_header_columns(be, bf, names)[13 + 4 * (be + bf) + 4 * k + m] == seq![
            "lane_left"@,
            "lane_center"@,
            "lane_right"@,
            "energy"@,
            "event"@,
            "texture"@,
            "beat_strength"@,
        ][k] + "_"@ + seq!["min"@, "max"@, "avg"@, "med"@][m],
{
    lemma_fields_columns_len(seq!["rms"@, "spectral_flux"@, "spectral_flatness"@]);
    lemma_band_columns_len("band_energy"@, names, be);
    lemma_band_columns_len("band_flux"@, names, bf);
    lemma_fields_columns_len(gameplay_fields());
    lemma_fields_columns_at(gameplay_fields(), k, m);
}

/// The text of each string of `v`.
pub open spec fn texts(v: Seq<String>) -> Seq<Seq<char>> {
    v.map_values(|s: String| s@)
}

fn push_stat_columns(out: &mut Vec<String>, field: &str)
    ensures
        texts(final(out)@) == texts(old(out)@) + stat_columns(field@),
{
    let ghost before = out@;
    let mut a = String::from_str(field);
    a.append("_");
    a.append("min");
    out.push(a);
    let mut b = String::from_str(field);
    b.append("_");
    b.append("max");
    out.push(b);
    let mut c = String::from_str(field);
    c.append("_");
    c.append("avg");
    out.push(c);
    let mut d = String::from_str(field);
    d.append("_");
    d.append("med");
    out.push(d);
    assert(texts(out@) =~= texts(before) + stat_columns(field@));
}

fn push_band_columns(out: &mut Vec<String>, kind: &str, names: &Vec<String>, count: usize)
    ensures
        texts(final(out)@) == texts(old(out)@) + band_columns(kind@, texts(names@), count as nat),
{
    let ghost before = out@;
    let mut i: usize = 0;
    while i < count
        invariant
            i <= count,
            texts(out@) == texts(before) + band_columns(kind@, texts(names@), i as nat),
        decreases count - i,
    {
        let mut prefix = String::from_str(kind);
        prefix.append("_");
        if i < names.len() {
            prefix.append(names[i].as_str());
        } else {
            prefix.append("unknown");
        }
        assert(prefix@ == kind@ + "_"@ + band_label(texts(names@), i as int));
        push_stat_columns(out, prefix.as_str());
        i = i + 1;
        assert(texts(out@) =~= texts(before) + band_columns(kind@, texts(names@), i as nat));
    }
}

/// The text of each string slice of `v`.
pub open spec fn str_texts(v: Seq<&str>) -> Seq<Seq<char>> {
    v.map_values(|s: &str| s@)
}

fn push_fields_columns(out: &mut Vec<String>, fields: &Vec<&str>)
    ensures
        texts(final(out)@) == texts(old(out)@) + fields_columns(str_texts(fields@)),
{
    let ghost before = out@;
    let ghost f = str_texts(fields@);
    let mut i: usize = 0;
    assert(f.take(0) =~= Seq::<Seq<char>>::empty());
    assert(texts(out@) =~= texts(before) + fields_columns(f.take(0)));
    while i < fields.len()
        invariant
            i <= fields.len(),
            f == str_texts(fields@),
            texts(out@) == texts(before) + fields_columns(f.take(i as int)),
        decreases fields.len() - i,
    {
        push_stat_columns(out, fields[i]);
        proof {
            let t = f.take(i + 1);
            assert(t.drop_last() =~= f.take(i as int));
            assert(t.last() == fields@[i as int]@);
        }
        i = i + 1;
        assert(texts(out@) =~= texts(before) + fields_columns(f.take(i as int)));
    }
    assert(f.take(i as int) =~= f);
}

/// The header of the statistics table for tracks whose frames have
/// `band_energy_count` band energies and `band_flux_count` band fluxes,
/// naming the bands after `band_names`.
pub fn csv_header(band_energy_count: usize, band_flux_count: usize, band_names: &Vec<String>) -> (r:
    Vec<String>)
    ensures
        texts(r@) == csv_header_columns(
            band_energy_count as nat,
            band_flux_count as nat,
            texts(band_names@),
        ),
{
    let mut r: Vec<String> = Vec::new();
    r.push(String::from_str("filename"));
    let frame_fields = vec!["rms", "spectral_flux", "spectral_flatness"];
    assert(str_texts(frame_fields@) =~= seq!["rms"@, "spectral_flux"@, "spectral_flatness"@]);
    push_fields_columns(&mut r, &frame_fields);
    push_band_columns(&mut r, "band_energy", band_names, band_energy_count);
    push_band_columns(&mut r, "band_flux", band_names, band_flux_count);
    let gameplay = vec![
        "lane_left",
        "lane_center",
        "lane_right",
        "energy",
        "event",
        "texture",
        "beat_strength",
    ];
    assert(str_texts(gameplay@) =~= gameplay_fields());
    push_fields_columns(&mut r, &gameplay);
    assert(texts(r@) =~= csv_header_columns(
        band_energy_count as nat,
        band_flux_count as nat,
        texts(band_names@),
    ));
    r
}

/// Where the median of `count` sorted values is read: the middle value, or
/// the two middle values (to be averaged) when the count is even; nothing
/// when there are no values.
pub fn median_positions(count: usize) -> (r: Option<(usize, usize)>)
    ensures
        count == 0 ==> r is None,
        count > 0 && count % 2 == 1 ==> r == Some(((count / 2) as usize, (count / 2) as usize)),
        count > 0 && count % 2 == 0 ==> r == Some(((count / 2 - 1) as usize, (count / 2) as usize)),
{
    if count == 0 {
        None
    } else if count % 2 == 0 {
        Some((count / 2 - 1, count / 2))
    } else {
        Some((count / 2, count / 2))
    }
}

} // verus!
