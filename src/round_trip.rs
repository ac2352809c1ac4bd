//! Writing a decoded report back as canonical text: the report read back from
//! that text is the report written.
use vstd::prelude::*;

use crate::grammar::{
    classify, classify_body, classify_trailer, is_altimeter, is_auto, is_clear, is_layer,
    is_station, is_temp, is_time, is_visibility, is_wind, layers_end, opt_rule, parse_groups, scan,
    slash_index, token_spans, words, Pair, Rule,
};
use crate::guarantees::{
    altimeter_text, breakdown_text, layer_text, lemma_altimeter_round_trip,
    lemma_breakdown_round_trip, lemma_layer_round_trip, lemma_temp_dew_round_trip,
    lemma_visibility_round_trip, lemma_wind_round_trip, temp_dew_text, text_of, visibility_text,
    wind_text,
};
use crate::metar::{CloudLayer, CloudsView, MetarView, RemarksView};
use crate::parser::{
    accumulate, apply_remark, decode, empty_accum, finish, is_station_type, is_temp_breakdown,
    layer_of, step, Accum,
};
use crate::text::{
    all_digits, digits_value, is_digit, lemma_all_digits_sub, lemma_digits_value_bound,
    lemma_pow10_small, pow10,
};

verus! {

/// A group of a report: non-empty, without spaces.
pub open spec fn is_group_text(g: Seq<char>) -> bool {
    g.len() > 0 && forall|i: int| 0 <= i < g.len() ==> #[trigger] g[i] != ' '
}

/// The groups `gs` separated by single spaces.
pub open spec fn join(gs: Seq<Seq<char>>) -> Seq<char>
    decreases gs.len(),
{
    if gs.len() == 0 {
        seq![]
    } else if gs.len() == 1 {
        gs[0]
    } else {
        join(gs.drop_last()) + seq![' '] + gs.last()
    }
}

proof fn lemma_scan_prefix(s: Seq<char>, t: Seq<char>, n: nat)
    requires
        n <= s.len(),
    ensures
        scan(s + t, n) == scan(s, n),
    decreases n,
{
    if n > 0 {
        lemma_scan_prefix(s, t, (n - 1) as nat);
        assert((s + t)[n - 1] == s[n - 1]);
    }
}

proof fn lemma_scan_block(s: Seq<char>, g: Seq<char>, k: nat)
    requires
        is_group_text(g),
        k <= g.len(),
        scan(s, s.len()).1 is None,
    ensures
        scan(s + g, s.len() + k) == if k == 0 {
            scan(s, s.len())
        } else {
            (scan(s, s.len()).0, Some(s.len() as int))
        },
    decreases k,
{
    if k == 0 {
        lemma_scan_prefix(s, g, s.len());
    } else {
        lemma_scan_block(s, g, (k - 1) as nat);
        assert((s + g)[s.len() + k - 1] == g[k - 1]);
    }
}

/// The tokens of joined groups are the groups, at known places.
proof fn lemma_join_tokens(gs: Seq<Seq<char>>)
    requires
        gs.len() > 0,
        forall|x: int| 0 <= x < gs.len() ==> is_group_text(#[trigger] gs[x]),
    ensures
        ({
            let j = join(gs);
            let sp = token_spans(j);
            &&& sp.len() == gs.len()
            &&& scan(j, j.len()) == (sp.drop_last(), Some(sp.last().0))
            &&& sp.last().1 == j.len()
            &&& forall|x: int|
                0 <= x < sp.len() ==> 0 <= #[trigger] sp[x].0 < sp[x].1 <= j.len()
                    && j.subrange(sp[x].0, sp[x].1) == gs[x]
        }),
    decreases gs.len(),
{
    let j = join(gs);
    if gs.len() == 1 {
        let e: Seq<char> = seq![];
        assert(e + gs[0] =~= gs[0]);
        assert(is_group_text(gs[0]));
        lemma_scan_block(e, gs[0], gs[0].len());
        assert(j.subrange(0, j.len() as int) =~= gs[0]);
    } else {
        let init = gs.drop_last();
        let g = gs.last();
        assert(is_group_text(g));
        assert forall|x: int| 0 <= x < init.len() implies is_group_text(#[trigger] init[x]) by {
            assert(init[x] == gs[x]);
        }
        lemma_join_tokens(init);
        let j0 = join(init);
        let sp0 = token_spans(j0);
        let s1 = j0 + seq![' '];
        assert(j =~= s1 + g);
        assert(j =~= j0 + (seq![' '] + g));
        lemma_scan_prefix(j0, seq![' '] + g, j0.len());
        lemma_scan_prefix(s1, g, s1.len());
        lemma_scan_prefix(j0, seq![' '], j0.len());
        assert(s1[j0.len() as int] == ' ');
        assert(scan(s1, s1.len()) == (sp0, None::<int>)) by {
            assert(sp0.drop_last().push(sp0.last()) =~= sp0);
        }
        lemma_scan_block(s1, g, g.len());
        let sp = token_spans(j);
        assert(sp =~= sp0.push((s1.len() as int, j.len() as int)));
        assert(sp.drop_last() =~= sp0);
        assert forall|x: int| 0 <= x < sp.len() implies 0 <= #[trigger] sp[x].0 < sp[x].1 <= j.len()
            && j.subrange(sp[x].0, sp[x].1) == gs[x] by {
            if x < sp0.len() {
                assert(sp[x] == sp0[x]);
                assert(j.subrange(sp[x].0, sp[x].1) =~= j0.subrange(sp0[x].0, sp0[x].1));
            } else {
                assert(j.subrange(sp[x].0, sp[x].1) =~= g);
            }
        }
    }
}

/// The words of joined groups are the groups.
pub proof fn lemma_join_words(gs: Seq<Seq<char>>)
    requires
        gs.len() > 0,
        forall|x: int| 0 <= x < gs.len() ==> is_group_text(#[trigger] gs[x]),
    ensures
        words(join(gs)) == gs,
        forall|x: int|
            0 <= x < gs.len() ==> 0 <= #[trigger] token_spans(join(gs))[x].0 < token_spans(
                join(gs),
            )[x].1 <= join(gs).len(),
        token_spans(join(gs)).len() == gs.len(),
{
    lemma_join_tokens(gs);
    assert(words(join(gs)) =~= gs);
}

proof fn lemma_slash_found(t: Seq<char>)
    requires
        slash_index(t) < t.len(),
    ensures
        0 <= slash_index(t),
        t[slash_index(t)] == '/',
    decreases t.len(),
{
    if t.len() > 0 && t[0] != '/' {
        lemma_slash_found(t.drop_first());
    }
}

proof fn lemma_slash_nonneg(t: Seq<char>)
    ensures
        0 <= slash_index(t) <= t.len(),
    decreases t.len(),
{
    if t.len() > 0 && t[0] != '/' {
        lemma_slash_nonneg(t.drop_first());
    }
}

proof fn lemma_digits_no_space(d: Seq<char>)
    requires
        all_digits(d),
    ensures
        forall|i: int| 0 <= i < d.len() ==> #[trigger] d[i] != ' ',
{
    assert forall|i: int| 0 <= i < d.len() implies #[trigger] d[i] != ' ' by {
        assert(is_digit(d[i]));
    }
}

proof fn lemma_temp_no_space(t: Seq<char>)
    requires
        is_temp(t),
    ensures
        forall|i: int| 0 <= i < t.len() ==> #[trigger] t[i] != ' ',
{
    if t.len() == 3 {
        lemma_digits_no_space(t.skip(1));
        assert forall|i: int| 0 <= i < t.len() implies #[trigger] t[i] != ' ' by {
            if i > 0 {
                assert(t[i] == t.skip(1)[i - 1]);
            }
        }
    } else {
        lemma_digits_no_space(t);
    }
}

/// Text of any group kind other than a free remark holds no space.
proof fn lemma_shape_is_group_text(w: Seq<char>, rule: Rule)
    requires
        crate::grammar::has_shape(w, rule),
        rule != Rule::Remark,
    ensures
        is_group_text(w),
{
    match rule {
        Rule::Station => {
            assert forall|i: int| 0 <= i < w.len() implies #[trigger] w[i] != ' ' by {
                assert(crate::text::is_alnum(w[i]));
            }
        },
        Rule::ObservationTime => {
            lemma_digits_no_space(w.take(6));
            assert forall|i: int| 0 <= i < w.len() implies #[trigger] w[i] != ' ' by {
                if i < 6 {
                    assert(w[i] == w.take(6)[i]);
                }
            }
        },
        Rule::Wind => {
            lemma_digits_no_space(w.take(5));
            if w.len() == 10 {
                lemma_digits_no_space(w.subrange(6, 8));
            }
            assert forall|i: int| 0 <= i < w.len() implies #[trigger] w[i] != ' ' by {
                if i < 5 {
                    assert(w[i] == w.take(5)[i]);
                } else if w.len() == 10 && 6 <= i < 8 {
                    assert(w[i] == w.subrange(6, 8)[i - 6]);
                }
            }
        },
        Rule::Visibility => {
            let d = w.take(w.len() - 2);
            let k = slash_index(d);
            lemma_slash_nonneg(d);
            if k == d.len() {
                lemma_digits_no_space(d);
            } else {
                lemma_digits_no_space(d.take(k));
                lemma_digits_no_space(d.skip(k + 1));
                lemma_slash_found(d);
            }
            assert forall|i: int| 0 <= i < w.len() implies #[trigger] w[i] != ' ' by {
                if i < d.len() {
                    assert(w[i] == d[i]);
                    if k < d.len() {
                        if i < k {
                            assert(d[i] == d.take(k)[i]);
                        } else if i > k {
                            assert(d[i] == d.skip(k + 1)[i - k - 1]);
                        }
                    }
                }
            }
        },
        Rule::CloudLayer => {
            lemma_digits_no_space(w.skip(3));
            assert forall|i: int| 0 <= i < w.len() implies #[trigger] w[i] != ' ' by {
                if i >= 3 {
                    assert(w[i] == w.skip(3)[i - 3]);
                }
            }
        },
        Rule::TempDew => {
            let k = slash_index(w);
            lemma_slash_nonneg(w);
            lemma_slash_found(w);
            lemma_temp_no_space(w.take(k));
            lemma_temp_no_space(w.skip(k + 1));
            assert forall|i: int| 0 <= i < w.len() implies #[trigger] w[i] != ' ' by {
                if i < k {
                    assert(w[i] == w.take(k)[i]);
                } else if i > k {
                    assert(w[i] == w.skip(k + 1)[i - k - 1]);
                }
            }
        },
        Rule::Altimeter => {
            lemma_digits_no_space(w.skip(1));
            assert forall|i: int| 0 <= i < w.len() implies #[trigger] w[i] != ' ' by {
                if i >= 1 {
                    assert(w[i] == w.skip(1)[i - 1]);
                }
            }
        },
        _ => {},
    }
}

proof fn lemma_breakdown_is_group_text(w: Seq<char>)
    requires
        is_temp_breakdown(w),
    ensures
        is_group_text(w),
{
    lemma_digits_no_space(w.subrange(2, 5));
    lemma_digits_no_space(w.subrange(6, 9));
    assert forall|i: int| 0 <= i < w.len() implies #[trigger] w[i] != ' ' by {
        if 2 <= i < 5 {
            assert(w[i] == w.subrange(2, 5)[i - 2]);
        } else if 6 <= i < 9 {
            assert(w[i] == w.subrange(6, 9)[i - 6]);
        }
    }
}

/// The canonical cloud groups: `CLR`, or each layer in order.
pub open spec fn clouds_groups(c: CloudsView) -> Seq<Seq<char>> {
    match c {
        CloudsView::Clear => seq![seq!['C', 'L', 'R']],
        CloudsView::Layers(ls) => ls.map_values(|l: CloudLayer| layer_text(l)),
    }
}

/// The canonical remark groups: `RMK`, then the station type and the
/// precise temperature remark where present.
pub open spec fn remarks_groups(r: Option<RemarksView>) -> Seq<Seq<char>> {
    match r {
        None => seq![],
        Some(r) => seq![seq!['R', 'M', 'K']] + match r.station_type {
            Some(st) => seq![st],
            None => seq![],
        } + match r.temp_breakdown {
            Some(b) => seq![breakdown_text(b)],
            None => seq![],
        },
    }
}

/// The groups of the canonical text of a report, in the grammar's order.
pub open spec fn report_groups(m: MetarView) -> Seq<Seq<char>> {
    seq![m.station, m.observation_time] + (if m.automated_report {
        seq![seq!['A', 'U', 'T', 'O']]
    } else {
        seq![]
    }) + seq![wind_text(m.wind), visibility_text(m.visibility)] + clouds_groups(m.clouds)
        + seq![temp_dew_text(m.temp, m.dewpoint)] + match m.altimeter {
        Some(a) => seq![altimeter_text(a)],
        None => seq![],
    } + remarks_groups(m.remarks)
}

/// The canonical text of a report: its groups separated by single spaces.
pub open spec fn report_text(m: MetarView) -> Seq<char> {
    join(report_groups(m))
}

/// The tags of the canonical cloud groups.
pub open spec fn clouds_tags(c: CloudsView) -> Seq<Rule> {
    match c {
        CloudsView::Clear => seq![Rule::CloudsClear],
        CloudsView::Layers(ls) => Seq::new(ls.len(), |_x: int| Rule::CloudLayer),
    }
}

/// The tags the grammar gives the canonical groups after the
/// temperature/dewpoint group.
pub open spec fn trailer_tags(m: MetarView) -> Seq<Rule> {
    opt_rule(m.altimeter is Some, Rule::Altimeter) + match m.remarks {
        None => seq![],
        Some(r) => seq![Rule::RemarksKw] + Seq::new(
            (if r.station_type is Some { 1nat } else { 0nat }) + (if r.temp_breakdown is Some {
                1nat
            } else {
                0nat
            }),
            |_x: int| Rule::Remark,
        ),
    }
}

/// The tags the grammar gives the canonical groups of a report.
pub open spec fn report_tags(m: MetarView) -> Seq<Rule> {
    seq![Rule::Station, Rule::ObservationTime] + opt_rule(m.automated_report, Rule::AutoKw) + seq![
        Rule::Wind,
        Rule::Visibility,
    ] + clouds_tags(m.clouds) + seq![Rule::TempDew] + trailer_tags(m)
}

/// A report whose every field has a canonical text: the station and time
/// have their group shapes, the numbers fit their digit counts, cloud layers
/// are listed and at whole hundreds of feet, and a station type remark has
/// its shape.
pub open spec fn encodable(m: MetarView) -> bool {
    &&& is_station(m.station)
    &&& is_time(m.observation_time)
    &&& m.wind.direction < 1000
    &&& m.wind.speed < 100
    &&& (m.wind.gust_speed matches Some(g) ==> g < 100)
    &&& m.visibility->numerator < 1_000_000_000
    &&& m.visibility->denominator < 1_000_000_000
    &&& -100 < m.temp < 100
    &&& -100 < m.dewpoint < 100
    &&& (m.altimeter matches Some(a) ==> a < 10000)
    &&& (m.clouds matches CloudsView::Layers(ls) ==> ls.len() > 0 && forall|i: int|
        0 <= i < ls.len() ==> (#[trigger] ls[i]).agl % 100 == 0 && ls[i].agl < 100000)
    &&& (m.remarks matches Some(r) ==> {
        &&& (r.station_type matches Some(st) ==> is_station_type(st))
        &&& (r.temp_breakdown matches Some(b) ==> -1000 < b.temp < 1000 && -1000 < b.dewpoint
            < 1000)
    })
}

proof fn lemma_layers_end_run(w: Seq<Seq<char>>, j: int, cnt: int)
    requires
        0 <= j,
        0 <= cnt,
        j + cnt <= w.len(),
        forall|x: int| j <= x < j + cnt ==> is_layer(#[trigger] w[x]),
        j + cnt == w.len() || !is_layer(w[j + cnt]),
    ensures
        layers_end(w, j) == j + cnt,
    decreases cnt,
{
    if cnt > 0 {
        assert(is_layer(w[j]));
        lemma_layers_end_run(w, j + 1, cnt - 1);
    }
}

proof fn lemma_temp_dew_second_digit(tp: i8, dp: i8)
    requires
        -100 < tp < 100,
    ensures
        is_digit(temp_dew_text(tp, dp)[1]),
{
    crate::text::lemma_digits_of(if tp < 0 { (-tp) as nat } else { tp as nat }, 2);
    let t = crate::guarantees::temp_text(tp);
    assert(temp_dew_text(tp, dp)[1] == t[1]);
    if tp < 0 {
        assert(t[1] == crate::text::digits_of((-tp) as nat, 2)[0]);
    }
}

/// Index of the wind group among the canonical groups.
pub open spec fn wind_index(m: MetarView) -> int {
    if m.automated_report { 3 } else { 2 }
}

/// Index of the first cloud group among the canonical groups.
pub open spec fn clouds_start(m: MetarView) -> int {
    wind_index(m) + 2
}

/// Index of the temperature/dewpoint group among the canonical groups.
pub open spec fn temp_dew_index(m: MetarView) -> int {
    clouds_start(m) + clouds_groups(m.clouds).len()
}

/// Index of the first remark group among the canonical groups.
pub open spec fn remarks_start(m: MetarView) -> int {
    temp_dew_index(m) + 1 + if m.altimeter is Some { 1int } else { 0int }
}

proof fn lemma_layout(m: MetarView)
    ensures
        ({
            let gs = report_groups(m);
            let c = clouds_groups(m.clouds);
            let r = remarks_groups(m.remarks);
            &&& gs.len() == remarks_start(m) + r.len()
            &&& gs[0] == m.station
            &&& gs[1] == m.observation_time
            &&& (m.automated_report ==> gs[2] == seq!['A', 'U', 'T', 'O'])
            &&& gs[wind_index(m)] == wind_text(m.wind)
            &&& gs[wind_index(m) + 1] == visibility_text(m.visibility)
            &&& (forall|x: int| 0 <= x < c.len() ==> gs[clouds_start(m) + x] == #[trigger] c[x])
            &&& gs[temp_dew_index(m)] == temp_dew_text(m.temp, m.dewpoint)
            &&& (m.altimeter matches Some(a) ==> gs[temp_dew_index(m) + 1] == altimeter_text(a))
            &&& (forall|x: int| 0 <= x < r.len() ==> gs[remarks_start(m) + x] == #[trigger] r[x])
        }),
{
    let gs = report_groups(m);
    let auto_part: Seq<Seq<char>> = if m.automated_report {
        seq![seq!['A', 'U', 'T', 'O']]
    } else {
        seq![]
    };
    let alt_part: Seq<Seq<char>> = match m.altimeter {
        Some(a) => seq![altimeter_text(a)],
        None => seq![],
    };
    let c = clouds_groups(m.clouds);
    let r = remarks_groups(m.remarks);
    let p1 = seq![m.station, m.observation_time] + auto_part;
    let p2 = p1 + seq![wind_text(m.wind), visibility_text(m.visibility)];
    let p3 = p2 + c;
    let p4 = p3 + seq![temp_dew_text(m.temp, m.dewpoint)];
    let p5 = p4 + alt_part;
    assert(gs == p5 + r);
    assert(p1.len() == wind_index(m));
    assert(p2.len() == clouds_start(m));
    assert(p3.len() == temp_dew_index(m));
    assert(p5.len() == remarks_start(m));
    assert(gs[0] == p1[0]);
    assert(gs[1] == p1[1]);
    assert(m.automated_report ==> gs[2] == p1[2]);
    assert(gs[wind_index(m)] == p2[wind_index(m)]);
    assert(gs[wind_index(m) + 1] == p2[wind_index(m) + 1]);
    assert forall|x: int| 0 <= x < c.len() implies gs[clouds_start(m) + x] == #[trigger] c[x] by {
        assert(gs[clouds_start(m) + x] == p3[clouds_start(m) + x]);
    }
    assert(gs[temp_dew_index(m)] == p4[temp_dew_index(m)]);
    assert(m.altimeter is Some ==> gs[temp_dew_index(m) + 1] == p5[temp_dew_index(m) + 1]);
}

proof fn lemma_trailer(m: MetarView)
    requires
        encodable(m),
    ensures
        classify_trailer(report_groups(m), temp_dew_index(m) + 1) == Ok::<Seq<Rule>, (int, Rule)>(
            trailer_tags(m),
        ),
{
    let gs = report_groups(m);
    lemma_layout(m);
    let k = temp_dew_index(m) + 1;
    let r = remarks_groups(m.remarks);
    match m.altimeter {
        Some(a) => {
            lemma_altimeter_round_trip(a);
        },
        None => {
            if m.remarks is Some {
                assert(gs[k] == r[0]);
                assert(!is_altimeter(gs[k]));
            }
        },
    }
    if m.remarks is Some {
        assert(gs[remarks_start(m)] == r[0]);
    }
    let t = classify_trailer(gs, k);
    assert(t->Ok_0 =~= trailer_tags(m));
}

proof fn lemma_body(m: MetarView)
    requires
        encodable(m),
    ensures
        classify_body(report_groups(m), wind_index(m) + 1) == Ok::<Seq<Rule>, (int, Rule)>(
            seq![Rule::Visibility] + clouds_tags(m.clouds) + seq![Rule::TempDew] + trailer_tags(m),
        ),
{
    let gs = report_groups(m);
    lemma_layout(m);
    lemma_trailer(m);
    lemma_visibility_round_trip(m.visibility);
    lemma_temp_dew_round_trip(m.temp, m.dewpoint);
    lemma_temp_dew_second_digit(m.temp, m.dewpoint);
    let j = clouds_start(m);
    let k = temp_dew_index(m);
    let c = clouds_groups(m.clouds);
    assert(!is_layer(gs[k]));
    match m.clouds {
        CloudsView::Clear => {
            assert(gs[j] == c[0]);
        },
        CloudsView::Layers(ls) => {
            assert forall|x: int| j <= x < j + ls.len() implies is_layer(#[trigger] gs[x]) by {
                lemma_layer_round_trip(ls[x - j]);
                assert(gs[j + (x - j)] == c[x - j]);
            }
            assert(gs[j + 0] == c[0]);
            assert(!is_clear(gs[j])) by {
                lemma_layer_round_trip(ls[0]);
                assert(seq!['C', 'L', 'R'].len() == 3);
            }
            lemma_layers_end_run(gs, j, ls.len() as int);
        },
    }
    let body = classify_body(gs, wind_index(m) + 1);
    assert(body->Ok_0 =~= seq![Rule::Visibility] + clouds_tags(m.clouds) + seq![Rule::TempDew]
        + trailer_tags(m));
}

proof fn lemma_front(m: MetarView)
    requires
        encodable(m),
    ensures
        ({
            let gs = report_groups(m);
            &&& gs.len() > wind_index(m)
            &&& is_station(gs[0])
            &&& is_time(gs[1])
            &&& is_auto(gs[2]) == m.automated_report
            &&& is_wind(gs[wind_index(m)])
        }),
{
    let gs = report_groups(m);
    lemma_layout(m);
    lemma_wind_round_trip(m.wind);
    assert(!m.automated_report ==> !is_auto(gs[2])) by {
        assert(seq!['A', 'U', 'T', 'O'].len() == 4);
    }
}

proof fn lemma_classify_front(w: Seq<Seq<char>>, auto: bool, body: Seq<Rule>)
    requires
        w.len() > (if auto { 3int } else { 2int }),
        is_station(w[0]),
        is_time(w[1]),
        is_auto(w[2]) == auto,
        is_wind(w[if auto { 3int } else { 2int }]),
        classify_body(w, if auto { 4int } else { 3int }) == Ok::<Seq<Rule>, (int, Rule)>(body),
    ensures
        classify(w) == Ok::<Seq<Rule>, (int, Rule)>(
            seq![Rule::Station, Rule::ObservationTime] + opt_rule(auto, Rule::AutoKw) + seq![
                Rule::Wind,
            ] + body,
        ),
{
}

/// The grammar tags the canonical groups of a report as `report_tags`.
proof fn lemma_report_classify(m: MetarView)
    requires
        encodable(m),
    ensures
        classify(report_groups(m)) == Ok::<Seq<Rule>, (int, Rule)>(report_tags(m)),
{
    let gs = report_groups(m);
    lemma_front(m);
    lemma_body(m);
    let body = classify_body(gs, wind_index(m) + 1)->Ok_0;
    lemma_classify_front(gs, m.automated_report, body);
    lemma_tags_assoc(
        opt_rule(m.automated_report, Rule::AutoKw),
        clouds_tags(m.clouds),
        trailer_tags(m),
    );
}

proof fn lemma_tags_assoc(b: Seq<Rule>, c: Seq<Rule>, d: Seq<Rule>)
    ensures
        seq![Rule::Station, Rule::ObservationTime] + b + seq![Rule::Wind] + (seq![Rule::Visibility]
            + c + seq![Rule::TempDew] + d) == seq![Rule::Station, Rule::ObservationTime] + b + seq![
            Rule::Wind,
            Rule::Visibility,
        ] + c + seq![Rule::TempDew] + d,
{
    assert(seq![Rule::Station, Rule::ObservationTime] + b + seq![Rule::Wind] + (seq![
        Rule::Visibility,
    ] + c + seq![Rule::TempDew] + d) =~= seq![Rule::Station, Rule::ObservationTime] + b + seq![
        Rule::Wind,
        Rule::Visibility,
    ] + c + seq![Rule::TempDew] + d);
}

/// Each canonical group of an encodable report is text without spaces.
proof fn lemma_report_group_texts(m: MetarView)
    requires
        encodable(m),
    ensures
        forall|x: int|
            0 <= x < report_groups(m).len() ==> is_group_text(#[trigger] report_groups(m)[x]),
{
    let gs = report_groups(m);
    lemma_layout(m);
    let c = clouds_groups(m.clouds);
    let r = remarks_groups(m.remarks);
    lemma_wind_round_trip(m.wind);
    lemma_visibility_round_trip(m.visibility);
    lemma_temp_dew_round_trip(m.temp, m.dewpoint);
    lemma_shape_is_group_text(m.station, Rule::Station);
    lemma_shape_is_group_text(m.observation_time, Rule::ObservationTime);
    lemma_shape_is_group_text(wind_text(m.wind), Rule::Wind);
    lemma_shape_is_group_text(visibility_text(m.visibility), Rule::Visibility);
    lemma_shape_is_group_text(temp_dew_text(m.temp, m.dewpoint), Rule::TempDew);
    assert forall|x: int| 0 <= x < gs.len() implies is_group_text(#[trigger] gs[x]) by {
        if x < 2 {
        } else if x < wind_index(m) {
            assert(gs[x] == seq!['A', 'U', 'T', 'O']);
            assert(is_group_text(seq!['A', 'U', 'T', 'O']));
        } else if x < clouds_start(m) {
        } else if x < temp_dew_index(m) {
            let y = x - clouds_start(m);
            assert(gs[clouds_start(m) + y] == c[y]);
            match m.clouds {
                CloudsView::Clear => {
                    assert(is_group_text(seq!['C', 'L', 'R']));
                },
                CloudsView::Layers(ls) => {
                    lemma_layer_round_trip(ls[y]);
                    lemma_shape_is_group_text(layer_text(ls[y]), Rule::CloudLayer);
                },
            }
        } else if x == temp_dew_index(m) {
        } else if x < remarks_start(m) {
            let a = m.altimeter->Some_0;
            lemma_altimeter_round_trip(a);
            lemma_shape_is_group_text(altimeter_text(a), Rule::Altimeter);
        } else {
            let y = x - remarks_start(m);
            assert(gs[remarks_start(m) + y] == r[y]);
            let rv = m.remarks->Some_0;
            if y == 0 {
                assert(r[0] == seq!['R', 'M', 'K']);
                assert(is_group_text(seq!['R', 'M', 'K']));
            } else if y == 1 && rv.station_type is Some {
                let st = rv.station_type->Some_0;
                assert(r[1] == st);
                assert(is_digit(st[2]));
            } else {
                let bt = rv.temp_breakdown->Some_0;
                assert(r[y] == breakdown_text(bt));
                lemma_breakdown_round_trip(bt);
                lemma_breakdown_is_group_text(breakdown_text(bt));
            }
        }
    }
}

/// Records the first `n` of the groups `texts` tagged `tags`, as decoding
/// does with the groups it matched.
pub open spec fn acc_over(tags: Seq<Rule>, texts: Seq<Seq<char>>, n: int) -> Result<Accum, Rule>
    decreases n,
{
    if n <= 0 {
        Ok(empty_accum())
    } else {
        match acc_over(tags, texts, n - 1) {
            Ok(a) => step(a, tags[n - 1], texts[n - 1]),
            Err(e) => Err(e),
        }
    }
}

proof fn lemma_accumulate_over(
    s: Seq<char>,
    v: Seq<Pair>,
    tags: Seq<Rule>,
    texts: Seq<Seq<char>>,
    n: int,
)
    requires
        0 <= n <= v.len(),
        forall|x: int| 0 <= x < n ==> (#[trigger] v[x]).rule == tags[x] && text_of(s, v[x]) == texts[x],
    ensures
        accumulate(s, v, n) == acc_over(tags, texts, n),
    decreases n,
{
    if n > 0 {
        lemma_accumulate_over(s, v, tags, texts, n - 1);
        assert(v[n - 1].rule == tags[n - 1]);
    }
}

/// The remark tags of the canonical groups.
pub open spec fn remark_tags(r: Option<RemarksView>) -> Seq<Rule> {
    match r {
        None => seq![],
        Some(r) => seq![Rule::RemarksKw] + Seq::new(
            (if r.station_type is Some { 1nat } else { 0nat }) + (if r.temp_breakdown is Some {
                1nat
            } else {
                0nat
            }),
            |_x: int| Rule::Remark,
        ),
    }
}

proof fn lemma_tag_layout(m: MetarView)
    ensures
        ({
            let t = report_tags(m);
            let c = clouds_tags(m.clouds);
            let r = remark_tags(m.remarks);
            &&& t.len() == remarks_start(m) + r.len()
            &&& r.len() == remarks_groups(m.remarks).len()
            &&& c.len() == clouds_groups(m.clouds).len()
            &&& t[0] == Rule::Station
            &&& t[1] == Rule::ObservationTime
            &&& (m.automated_report ==> t[2] == Rule::AutoKw)
            &&& t[wind_index(m)] == Rule::Wind
            &&& t[wind_index(m) + 1] == Rule::Visibility
            &&& (forall|x: int| 0 <= x < c.len() ==> t[clouds_start(m) + x] == #[trigger] c[x])
            &&& t[temp_dew_index(m)] == Rule::TempDew
            &&& (m.altimeter is Some ==> t[temp_dew_index(m) + 1] == Rule::Altimeter)
            &&& (forall|x: int| 0 <= x < r.len() ==> t[remarks_start(m) + x] == #[trigger] r[x])
        }),
{
    let t = report_tags(m);
    let c = clouds_tags(m.clouds);
    let r = remark_tags(m.remarks);
    let p1 = seq![Rule::Station, Rule::ObservationTime] + opt_rule(m.automated_report, Rule::AutoKw);
    let p2 = p1 + seq![Rule::Wind, Rule::Visibility];
    let p3 = p2 + c;
    let p4 = p3 + seq![Rule::TempDew];
    let p5 = p4 + opt_rule(m.altimeter is Some, Rule::Altimeter);
    assert(trailer_tags(m) == opt_rule(m.altimeter is Some, Rule::Altimeter) + r);
    assert(t =~= p5 + r);
    assert(p1.len() == wind_index(m));
    assert(p3.len() == temp_dew_index(m));
    assert(p5.len() == remarks_start(m));
    assert(t[0] == p1[0]);
    assert(t[1] == p1[1]);
    assert(m.automated_report ==> t[2] == p1[2]);
    assert(t[wind_index(m)] == p2[wind_index(m)]);
    assert(t[wind_index(m) + 1] == p2[wind_index(m) + 1]);
    assert forall|x: int| 0 <= x < c.len() implies t[clouds_start(m) + x] == #[trigger] c[x] by {
        assert(t[clouds_start(m) + x] == p3[clouds_start(m) + x]);
    }
    assert(t[temp_dew_index(m)] == p4[temp_dew_index(m)]);
    assert(m.altimeter is Some ==> t[temp_dew_index(m) + 1] == p5[temp_dew_index(m) + 1]);
}

proof fn lemma_walk_layers(
    tags: Seq<Rule>,
    gs: Seq<Seq<char>>,
    j: int,
    ls: Seq<CloudLayer>,
    a: Accum,
    c: int,
)
    requires
        0 <= j,
        0 <= c <= ls.len(),
        acc_over(tags, gs, j) == Ok::<Accum, Rule>(a),
        a.clouds is None,
        forall|x: int|
            0 <= x < ls.len() ==> tags[j + x] == Rule::CloudLayer && gs[j + x] == layer_text(
                #[trigger] ls[x],
            ) && layer_of(layer_text(ls[x])) == Some(ls[x]),
    ensures
        acc_over(tags, gs, j + c) == Ok::<Accum, Rule>(
            if c == 0 {
                a
            } else {
                Accum { clouds: Some(CloudsView::Layers(ls.take(c))), ..a }
            },
        ),
    decreases c,
{
    if c > 0 {
        lemma_walk_layers(tags, gs, j, ls, a, c - 1);
        let l = ls[c - 1];
        assert(tags[j + (c - 1)] == Rule::CloudLayer);
        assert(gs[j + (c - 1)] == layer_text(l));
        if c == 1 {
            assert(seq![].push(l) =~= ls.take(1));
        } else {
            assert(ls.take(c - 1).push(l) =~= ls.take(c));
        }
    }
}

/// What decoding the canonical groups of `m` records.
pub open spec fn expected_accum(m: MetarView) -> Accum {
    Accum {
        station: Some(m.station),
        observation_time: Some(m.observation_time),
        automated_report: m.automated_report,
        wind: Some(m.wind),
        visibility: Some(m.visibility),
        clouds: Some(m.clouds),
        temp: Some(m.temp),
        dewpoint: Some(m.dewpoint),
        altimeter: m.altimeter,
        remarks: m.remarks,
    }
}

/// What decoding records from the groups before the clouds.
pub open spec fn front_accum(m: MetarView) -> Accum {
    Accum {
        station: Some(m.station),
        observation_time: Some(m.observation_time),
        automated_report: m.automated_report,
        wind: Some(m.wind),
        visibility: Some(m.visibility),
        ..empty_accum()
    }
}

/// What decoding records from the groups up to the remarks.
pub open spec fn middle_accum(m: MetarView) -> Accum {
    Accum { remarks: None, ..expected_accum(m) }
}

proof fn lemma_walk_front(t: Seq<Rule>, gs: Seq<Seq<char>>, m: MetarView, wi: int)
    requires
        wi == if m.automated_report { 3int } else { 2int },
        t[0] == Rule::Station,
        t[1] == Rule::ObservationTime,
        m.automated_report ==> t[2] == Rule::AutoKw,
        gs[0] == m.station,
        gs[1] == m.observation_time,
        t[wi] == Rule::Wind,
        t[wi + 1] == Rule::Visibility,
        gs[wi] == wind_text(m.wind),
        gs[wi + 1] == visibility_text(m.visibility),
        crate::parser::wind_of(wind_text(m.wind)) == m.wind,
        crate::parser::visibility_of(visibility_text(m.visibility)) == Some(m.visibility),
    ensures
        acc_over(t, gs, wi + 2) == Ok::<Accum, Rule>(front_accum(m)),
{
    let a1 = Accum { station: Some(m.station), ..empty_accum() };
    assert(acc_over(t, gs, 0) == Ok::<Accum, Rule>(empty_accum()));
    assert(acc_over(t, gs, 1) == Ok::<Accum, Rule>(a1));
    let a2 = Accum { observation_time: Some(m.observation_time), ..a1 };
    assert(acc_over(t, gs, 2) == Ok::<Accum, Rule>(a2));
    let a3 = Accum { automated_report: m.automated_report, ..a2 };
    if m.automated_report {
        assert(acc_over(t, gs, 3) == Ok::<Accum, Rule>(a3));
    } else {
        assert(a3 == a2);
    }
    assert(acc_over(t, gs, wi) == Ok::<Accum, Rule>(a3));
    let a4 = Accum { wind: Some(m.wind), ..a3 };
    assert(acc_over(t, gs, wi + 1) == Ok::<Accum, Rule>(a4));
    assert(acc_over(t, gs, wi + 2) == Ok::<Accum, Rule>(front_accum(m)));
}

#[verifier::rlimit(40)]
proof fn lemma_walk_middle(t: Seq<Rule>, gs: Seq<Seq<char>>, m: MetarView, cs: int, td: int)
    requires
        0 <= cs,
        acc_over(t, gs, cs) == Ok::<Accum, Rule>(front_accum(m)),
        td == cs + clouds_groups(m.clouds).len(),
        forall|x: int|
            0 <= x < clouds_groups(m.clouds).len() ==> t[cs + x] == #[trigger] clouds_tags(
                m.clouds,
            )[x] && gs[cs + x] == clouds_groups(m.clouds)[x],
        m.clouds matches CloudsView::Layers(ls) ==> forall|x: int|
            0 <= x < ls.len() ==> layer_of(layer_text(#[trigger] ls[x])) == Some(ls[x]),
        t[td] == Rule::TempDew,
        gs[td] == temp_dew_text(m.temp, m.dewpoint),
        crate::parser::temp_dew_of(temp_dew_text(m.temp, m.dewpoint)) == (m.temp, m.dewpoint),
        m.altimeter matches Some(al) ==> t[td + 1] == Rule::Altimeter && gs[td + 1]
            == altimeter_text(al) && crate::parser::altimeter_of(altimeter_text(al)) == al,
        m.clouds matches CloudsView::Layers(ls) ==> ls.len() > 0,
    ensures
        acc_over(t, gs, td + 1 + if m.altimeter is Some { 1int } else { 0int }) == Ok::<
            Accum,
            Rule,
        >(middle_accum(m)),
{
    let a5 = front_accum(m);
    let a6 = Accum { clouds: Some(m.clouds), ..a5 };
    let c = clouds_groups(m.clouds);
    let ct = clouds_tags(m.clouds);
    match m.clouds {
        CloudsView::Clear => {
            assert(t[cs + 0] == ct[0]);
            assert(gs[cs + 0] == c[0]);
            assert(acc_over(t, gs, cs + 1) == Ok::<Accum, Rule>(a6));
        },
        CloudsView::Layers(ls) => {
            assert forall|x: int| 0 <= x < ls.len() implies t[cs + x] == Rule::CloudLayer && gs[cs
                + x] == layer_text(#[trigger] ls[x]) && layer_of(layer_text(ls[x])) == Some(
                ls[x],
            ) by {
                assert(t[cs + x] == ct[x]);
                assert(gs[cs + x] == c[x]);
            }
            lemma_walk_layers(t, gs, cs, ls, a5, ls.len() as int);
            assert(ls.take(ls.len() as int) =~= ls);
        },
    }
    assert(acc_over(t, gs, td) == Ok::<Accum, Rule>(a6));
    let a7 = Accum { temp: Some(m.temp), dewpoint: Some(m.dewpoint), ..a6 };
    assert(acc_over(t, gs, td + 1) == Ok::<Accum, Rule>(a7));
    match m.altimeter {
        Some(al) => {
            assert(acc_over(t, gs, td + 2) == Ok::<Accum, Rule>(middle_accum(m)));
        },
        None => {
            assert(a7 == middle_accum(m));
        },
    }
}

proof fn lemma_walk_remarks(t: Seq<Rule>, gs: Seq<Seq<char>>, m: MetarView, rs: int)
    requires
        0 <= rs,
        acc_over(t, gs, rs) == Ok::<Accum, Rule>(middle_accum(m)),
        forall|x: int|
            0 <= x < remarks_groups(m.remarks).len() ==> t[rs + x] == #[trigger] remark_tags(
                m.remarks,
            )[x] && gs[rs + x] == remarks_groups(m.remarks)[x],
        m.remarks matches Some(rv) ==> (rv.station_type matches Some(st) ==> is_station_type(st)),
        m.remarks matches Some(rv) ==> (rv.temp_breakdown matches Some(bd) ==> is_temp_breakdown(
            breakdown_text(bd),
        ) && crate::parser::breakdown_of(breakdown_text(bd)) == bd),
    ensures
        acc_over(t, gs, rs + remarks_groups(m.remarks).len()) == Ok::<Accum, Rule>(expected_accum(m)),
{
    let a8 = middle_accum(m);
    let r = remarks_groups(m.remarks);
    let rt = remark_tags(m.remarks);
    match m.remarks {
        None => {
            assert(a8 == expected_accum(m));
        },
        Some(rv) => {
            let e = RemarksView { station_type: None, temp_breakdown: None };
            let a9 = Accum { remarks: Some(e), ..a8 };
            assert(t[rs + 0] == rt[0]);
            assert(gs[rs + 0] == r[0]);
            assert(acc_over(t, gs, rs + 1) == Ok::<Accum, Rule>(a9));
            let e2 = RemarksView { station_type: rv.station_type, temp_breakdown: None };
            let a10 = Accum { remarks: Some(e2), ..a8 };
            let q = rs + 1 + if rv.station_type is Some { 1int } else { 0int };
            match rv.station_type {
                Some(st) => {
                    assert(t[rs + 1] == rt[1]);
                    assert(gs[rs + 1] == r[1]);
                    assert(apply_remark(e, st) == e2);
                    assert(acc_over(t, gs, rs + 2) == Ok::<Accum, Rule>(a10));
                },
                None => {
                    assert(e2 == e);
                },
            }
            assert(acc_over(t, gs, q) == Ok::<Accum, Rule>(a10));
            match rv.temp_breakdown {
                Some(bd) => {
                    let y = q - rs;
                    assert(t[rs + y] == rt[y]);
                    assert(gs[rs + y] == r[y]);
                    assert(!is_station_type(breakdown_text(bd)));
                    assert(apply_remark(e2, breakdown_text(bd)) == rv);
                    assert(acc_over(t, gs, q + 1) == Ok::<Accum, Rule>(expected_accum(m)));
                },
                None => {
                    assert(e2 == rv);
                },
            }
        },
    }
}

proof fn lemma_walk(m: MetarView)
    requires
        encodable(m),
    ensures
        acc_over(report_tags(m), report_groups(m), report_groups(m).len() as int) == Ok::<
            Accum,
            Rule,
        >(expected_accum(m)),
{
    let t = report_tags(m);
    let gs = report_groups(m);
    lemma_layout(m);
    lemma_tag_layout(m);
    lemma_wind_round_trip(m.wind);
    lemma_visibility_round_trip(m.visibility);
    lemma_temp_dew_round_trip(m.temp, m.dewpoint);
    lemma_walk_front(t, gs, m, wind_index(m));
    match m.clouds {
        CloudsView::Layers(ls) => {
            assert forall|x: int| 0 <= x < ls.len() implies layer_of(layer_text(#[trigger] ls[x]))
                == Some(ls[x]) by {
                lemma_layer_round_trip(ls[x]);
            }
        },
        CloudsView::Clear => {},
    }
    match m.altimeter {
        Some(al) => {
            lemma_altimeter_round_trip(al);
        },
        None => {},
    }
    lemma_walk_middle(t, gs, m, clouds_start(m), temp_dew_index(m));
    match m.remarks {
        Some(rv) => {
            match rv.temp_breakdown {
                Some(bd) => {
                    lemma_breakdown_round_trip(bd);
                },
                None => {},
            }
        },
        None => {},
    }
    lemma_walk_remarks(t, gs, m, remarks_start(m));
}

/// The groups matched in a text whose words are `gs`, tagged `t`.
pub open spec fn matched_pairs(s: Seq<char>, t: Seq<Rule>) -> Seq<Pair> {
    Seq::new(
        t.len(),
        |x: int| Pair { rule: t[x], start: token_spans(s)[x].0 as usize, end: token_spans(s)[x].1 as usize },
    )
}

proof fn lemma_matched(s: Seq<char>, gs: Seq<Seq<char>>, t: Seq<Rule>)
    requires
        words(s) == gs,
        token_spans(s).len() == gs.len(),
        t.len() == gs.len(),
        s.len() <= usize::MAX,
        forall|x: int|
            0 <= x < gs.len() ==> 0 <= #[trigger] token_spans(s)[x].0 < token_spans(s)[x].1
                <= s.len(),
        classify(gs) == Ok::<Seq<Rule>, (int, Rule)>(t),
    ensures
        parse_groups(s) == Ok::<Seq<Pair>, crate::grammar::Malformed>(matched_pairs(s, t)),
        forall|x: int|
            0 <= x < t.len() ==> (#[trigger] matched_pairs(s, t)[x]).rule == t[x] && text_of(
                s,
                matched_pairs(s, t)[x],
            ) == gs[x],
{
    let v = matched_pairs(s, t);
    let sp = token_spans(s);
    assert(parse_groups(s)->Ok_0 =~= v);
    assert forall|x: int| 0 <= x < t.len() implies (#[trigger] v[x]).rule == t[x] && text_of(s, v[x])
        == gs[x] by {
        assert(0 <= sp[x].0 < sp[x].1 <= s.len());
        assert(words(s)[x] == s.subrange(sp[x].0, sp[x].1));
    }
}

proof fn lemma_decode_ok(s: Seq<char>, v: Seq<Pair>, acc: Accum, m: MetarView)
    requires
        parse_groups(s) == Ok::<Seq<Pair>, crate::grammar::Malformed>(v),
        accumulate(s, v, v.len() as int) == Ok::<Accum, Rule>(acc),
        finish(acc) == Ok::<MetarView, crate::parser::Element>(m),
    ensures
        decode(s) == Ok::<MetarView, crate::parser::ParseError>(m),
{
}

proof fn lemma_counts(m: MetarView)
    requires
        encodable(m),
    ensures
        report_tags(m).len() == report_groups(m).len(),
        report_groups(m).len() > 0,
        finish(expected_accum(m)) == Ok::<MetarView, crate::parser::Element>(m),
{
    lemma_layout(m);
    lemma_tag_layout(m);
}

/// Decoding the canonical text of a report gives the report back: every
/// report whose fields have a canonical text (and whose text fits in memory)
/// survives being written out and read again unchanged.
pub proof fn lemma_report_round_trip(m: MetarView)
    requires
        encodable(m),
        report_text(m).len() <= usize::MAX,
    ensures
        decode(report_text(m)) == Ok::<MetarView, crate::parser::ParseError>(m),
{
    let gs = report_groups(m);
    let s = join(gs);
    let t = report_tags(m);
    lemma_counts(m);
    lemma_report_group_texts(m);
    lemma_join_words(gs);
    lemma_report_classify(m);
    lemma_matched(s, gs, t);
    let v = matched_pairs(s, t);
    lemma_accumulate_over(s, v, t, gs, v.len() as int);
    lemma_walk(m);
    lemma_decode_ok(s, v, expected_accum(m), m);
}

proof fn lemma_scan_bounds(s: Seq<char>, n: nat)
    requires
        n <= s.len(),
    ensures
        forall|k: int|
            0 <= k < scan(s, n).0.len() ==> 0 <= #[trigger] scan(s, n).0[k].0 < scan(s, n).0[k].1
                < n,
        scan(s, n).1 matches Some(a) ==> 0 <= a < n,
    decreases n,
{
    if n > 0 {
        lemma_scan_bounds(s, (n - 1) as nat);
        let (d, o) = scan(s, (n - 1) as nat);
        assert forall|k: int|
            0 <= k < scan(s, n).0.len() implies 0 <= #[trigger] scan(s, n).0[k].0 < scan(
            s,
            n,
        ).0[k].1 < n by {
            if k < d.len() {
                assert(scan(s, n).0[k] == d[k]);
            }
        }
    }
}

/// Every token range lies within the text and is not empty.
proof fn lemma_token_spans_bounds(s: Seq<char>)
    ensures
        forall|x: int|
            0 <= x < token_spans(s).len() ==> 0 <= #[trigger] token_spans(s)[x].0 < token_spans(
                s,
            )[x].1 <= s.len(),
{
    lemma_scan_bounds(s, s.len());
    let (d, o) = scan(s, s.len());
    assert forall|x: int| 0 <= x < token_spans(s).len() implies 0 <= #[trigger] token_spans(s)[x].0
        < token_spans(s)[x].1 <= s.len() by {
        if x < d.len() {
            assert(token_spans(s)[x] == d[x]);
        }
    }
}

proof fn lemma_layer_run_shapes(w: Seq<Seq<char>>, j: int)
    requires
        0 <= j <= w.len(),
    ensures
        j <= layers_end(w, j) <= w.len(),
        forall|x: int| j <= x < layers_end(w, j) ==> is_layer(#[trigger] w[x]),
    decreases w.len() - j,
{
    if j < w.len() && is_layer(w[j]) {
        lemma_layer_run_shapes(w, j + 1);
    }
}

proof fn lemma_trailer_shapes(w: Seq<Seq<char>>, k: int)
    requires
        0 <= k <= w.len(),
        classify_trailer(w, k) is Ok,
    ensures
        classify_trailer(w, k)->Ok_0.len() == w.len() - k,
        forall|y: int|
            0 <= y < w.len() - k ==> crate::grammar::has_shape(
                #[trigger] w[k + y],
                classify_trailer(w, k)->Ok_0[y],
            ),
{
}

proof fn lemma_body_shapes(w: Seq<Seq<char>>, i: int)
    requires
        0 <= i <= w.len(),
        classify_body(w, i) is Ok,
    ensures
        classify_body(w, i)->Ok_0.len() == w.len() - i,
        forall|y: int|
            0 <= y < w.len() - i ==> crate::grammar::has_shape(
                #[trigger] w[i + y],
                classify_body(w, i)->Ok_0[y],
            ),
{
    let n = w.len() as int;
    let vis = i < n && is_visibility(w[i]);
    let j: int = if vis { i + 1 } else { i };
    let clear = j < n && is_clear(w[j]);
    lemma_layer_run_shapes(w, j);
    let k: int = if clear { j + 1 } else { layers_end(w, j) };
    lemma_trailer_shapes(w, k + 1);
    let ct = if clear {
        seq![Rule::CloudsClear]
    } else {
        Seq::new((k - j) as nat, |_x: int| Rule::CloudLayer)
    };
    let head = opt_rule(vis, Rule::Visibility) + ct + seq![Rule::TempDew];
    let tr = classify_trailer(w, k + 1)->Ok_0;
    let bt = classify_body(w, i)->Ok_0;
    assert(bt == head + tr);
    assert forall|y: int| 0 <= y < w.len() - i implies crate::grammar::has_shape(
        #[trigger] w[i + y],
        bt[y],
    ) by {
        if y < head.len() {
            if i + y < j {
            } else if i + y < k {
                assert(bt[y] == ct[i + y - j]);
            }
        } else {
            assert(bt[y] == tr[y - head.len()]);
            assert(w[i + y] == w[(k + 1) + (y - head.len())]);
        }
    }
}

/// The grammar tags each token with a group whose shape it has.
proof fn lemma_classify_shapes(w: Seq<Seq<char>>)
    requires
        classify(w) is Ok,
    ensures
        classify(w)->Ok_0.len() == w.len(),
        forall|x: int|
            0 <= x < w.len() ==> crate::grammar::has_shape(
                #[trigger] w[x],
                classify(w)->Ok_0[x],
            ),
{
    let n = w.len() as int;
    let auto = n > 2 && is_auto(w[2]);
    let i: int = if auto { 3 } else { 2 };
    lemma_body_shapes(w, i + 1);
    let front = seq![Rule::Station, Rule::ObservationTime] + opt_rule(auto, Rule::AutoKw) + seq![
        Rule::Wind,
    ];
    let bt = classify_body(w, i + 1)->Ok_0;
    let tags = classify(w)->Ok_0;
    assert(tags == front + bt);
    assert forall|x: int| 0 <= x < w.len() implies crate::grammar::has_shape(
        #[trigger] w[x],
        tags[x],
    ) by {
        if x >= front.len() {
            assert(tags[x] == bt[x - front.len()]);
            assert(w[x] == w[(i + 1) + (x - front.len())]);
        }
    }
}

proof fn lemma_pow10_mono(a: nat, b: nat)
    requires
        a <= b,
    ensures
        pow10(a) <= pow10(b),
        pow10(9) == 1_000_000_000,
    decreases b,
{
    reveal_with_fuel(pow10, 10);
    if a < b {
        lemma_pow10_mono(a, (b - 1) as nat);
    }
}

proof fn lemma_sub_value_bound(w: Seq<char>, i: int, j: int, d: Seq<char>)
    requires
        all_digits(d),
        0 <= i <= j <= d.len(),
        w == d.subrange(i, j),
    ensures
        all_digits(w),
        digits_value(w) < pow10((j - i) as nat),
{
    lemma_all_digits_sub(d, i, j);
    lemma_digits_value_bound(w);
}

proof fn lemma_temp_bound(t: Seq<char>)
    requires
        is_temp(t),
    ensures
        -100 < crate::parser::temp_of(t) < 100,
{
    lemma_pow10_small();
    if t.len() == 3 {
        assert(t.subrange(1, 3) =~= t.skip(1));
        lemma_digits_value_bound(t.skip(1));
    } else {
        lemma_digits_value_bound(t);
    }
}

/// The values decoded from a group of the right shape have canonical text.
proof fn lemma_decoded_bounds(w: Seq<char>, rule: Rule)
    requires
        crate::grammar::has_shape(w, rule),
    ensures
        rule == Rule::Wind ==> ({
            let wd = crate::parser::wind_of(w);
            &&& wd.direction < 1000
            &&& wd.speed < 100
            &&& (wd.gust_speed matches Some(g) ==> g < 100)
        }),
        rule == Rule::TempDew ==> -100 < crate::parser::temp_dew_of(w).0 < 100 && -100
            < crate::parser::temp_dew_of(w).1 < 100,
        rule == Rule::Visibility ==> (crate::parser::visibility_of(w) matches Some(vi)
            && vi->numerator < 1_000_000_000 && vi->denominator < 1_000_000_000),
        rule == Rule::CloudLayer ==> layer_of(w) is Some,
        rule == Rule::Altimeter ==> crate::parser::altimeter_of(w) < 10000,
        rule == Rule::CloudLayer ==> (layer_of(w) matches Some(l) ==> l.agl % 100 == 0 && l.agl
            < 100000),
        rule == Rule::Remark && is_temp_breakdown(w) ==> ({
            let b = crate::parser::breakdown_of(w);
            -1000 < b.temp < 1000 && -1000 < b.dewpoint < 1000
        }),
{
    lemma_pow10_small();
    match rule {
        Rule::Wind => {
            assert(w.subrange(0, 3) =~= w.take(5).subrange(0, 3));
            assert(w.subrange(3, 5) =~= w.take(5).subrange(3, 5));
            lemma_sub_value_bound(w.subrange(0, 3), 0, 3, w.take(5));
            lemma_sub_value_bound(w.subrange(3, 5), 3, 5, w.take(5));
            if w.len() == 10 {
                lemma_digits_value_bound(w.subrange(6, 8));
            }
        },
        Rule::TempDew => {
            let k = slash_index(w);
            lemma_slash_nonneg(w);
            assert(w.subrange(0, k) =~= w.take(k));
            assert(w.subrange(k + 1, w.len() as int) =~= w.skip(k + 1));
            lemma_temp_bound(w.take(k));
            lemma_temp_bound(w.skip(k + 1));
        },
        Rule::Visibility => {
            let d = w.subrange(0, w.len() - 2);
            assert(w.take(w.len() - 2) =~= d);
            let k = slash_index(d);
            lemma_slash_nonneg(d);
            if k == d.len() {
                lemma_digits_value_bound(d);
                lemma_pow10_mono(d.len(), 9);
            } else {
                assert(d.subrange(0, k) =~= d.take(k));
                assert(d.subrange(k + 1, d.len() as int) =~= d.skip(k + 1));
                lemma_digits_value_bound(d.take(k));
                lemma_digits_value_bound(d.skip(k + 1));
                lemma_pow10_mono(k as nat, 9);
                lemma_pow10_mono((d.len() - k - 1) as nat, 9);
            }
        },
        Rule::Altimeter => {
            assert(w.subrange(1, 5) =~= w.skip(1));
            lemma_digits_value_bound(w.skip(1));
        },
        Rule::CloudLayer => {
            assert(w.subrange(3, 6) =~= w.skip(3));
            lemma_digits_value_bound(w.skip(3));
            let d = digits_value(w.subrange(3, 6));
            assert((d * 100) % 100 == 0) by (nonlinear_arith);
        },
        Rule::Remark => {
            if is_temp_breakdown(w) {
                lemma_digits_value_bound(w.subrange(2, 5));
                lemma_digits_value_bound(w.subrange(6, 9));
            }
        },
        _ => {},
    }
}

/// The fields recorded so far all have canonical text.
pub open spec fn sound_accum(acc: Accum) -> bool {
    &&& (acc.station matches Some(st) ==> is_station(st))
    &&& (acc.observation_time matches Some(ot) ==> is_time(ot))
    &&& (acc.wind matches Some(wd) ==> wd.direction < 1000 && wd.speed < 100 && (
    wd.gust_speed matches Some(g) ==> g < 100))
    &&& (acc.visibility matches Some(vi) ==> vi->numerator < 1_000_000_000 && vi->denominator
        < 1_000_000_000)
    &&& (acc.temp matches Some(tp) ==> -100 < tp < 100)
    &&& (acc.dewpoint matches Some(dp) ==> -100 < dp < 100)
    &&& (acc.altimeter matches Some(a) ==> a < 10000)
    &&& (acc.clouds matches Some(CloudsView::Layers(ls)) ==> ls.len() > 0 && forall|i: int|
        0 <= i < ls.len() ==> (#[trigger] ls[i]).agl % 100 == 0 && ls[i].agl < 100000)
    &&& (acc.remarks matches Some(r) ==> {
        &&& (r.station_type matches Some(st) ==> is_station_type(st))
        &&& (r.temp_breakdown matches Some(b) ==> -1000 < b.temp < 1000 && -1000 < b.dewpoint
            < 1000)
    })
}

proof fn lemma_sound_accum(s: Seq<char>, v: Seq<Pair>, n: int)
    requires
        0 <= n <= v.len(),
        forall|x: int|
            0 <= x < v.len() ==> crate::grammar::has_shape(
                text_of(s, #[trigger] v[x]),
                v[x].rule,
            ),
        accumulate(s, v, n) is Ok,
    ensures
        sound_accum(accumulate(s, v, n)->Ok_0),
    decreases n,
{
    if n > 0 {
        lemma_sound_accum(s, v, n - 1);
        let acc = accumulate(s, v, n - 1)->Ok_0;
        let p = v[n - 1];
        let w = text_of(s, p);
        lemma_decoded_bounds(w, p.rule);
        if p.rule == Rule::CloudLayer {
            let l = layer_of(w)->Some_0;
            let ls = crate::parser::layers_so_far(acc.clouds).push(l);
            assert forall|i: int| 0 <= i < ls.len() implies (#[trigger] ls[i]).agl % 100 == 0
                && ls[i].agl < 100000 by {
                if i < ls.len() - 1 {
                    assert(ls[i] == crate::parser::layers_so_far(acc.clouds)[i]);
                }
            }
        }
    }
}

/// Each group that the grammar matches in `s` has the shape of its kind.
pub proof fn lemma_groups_shaped(s: Seq<char>)
    requires
        parse_groups(s) is Ok,
        s.len() <= usize::MAX,
    ensures
        forall|x: int|
            0 <= x < parse_groups(s)->Ok_0.len() ==> crate::grammar::has_shape(
                text_of(s, #[trigger] parse_groups(s)->Ok_0[x]),
                parse_groups(s)->Ok_0[x].rule,
            ),
{
    let v = parse_groups(s)->Ok_0;
    let w = words(s);
    let sp = token_spans(s);
    lemma_classify_shapes(w);
    lemma_token_spans_bounds(s);
    let tags = classify(w)->Ok_0;
    assert forall|x: int| 0 <= x < v.len() implies crate::grammar::has_shape(
        text_of(s, #[trigger] v[x]),
        v[x].rule,
    ) by {
        assert(0 <= sp[x].0 < sp[x].1 <= s.len());
        assert(w[x] == s.subrange(sp[x].0, sp[x].1));
        assert(v[x].rule == tags[x]);
        assert(text_of(s, v[x]) == w[x]);
    }
}

/// Every visibility and cloud layer group that the grammar matches decodes.
pub proof fn lemma_matched_groups_decode(s: Seq<char>)
    requires
        parse_groups(s) is Ok,
        s.len() <= usize::MAX,
    ensures
        crate::guarantees::groups_decode(s, parse_groups(s)->Ok_0),
{
    let v = parse_groups(s)->Ok_0;
    lemma_groups_shaped(s);
    assert forall|x: int| 0 <= x < v.len() implies {
        &&& (#[trigger] v[x].rule == Rule::Visibility ==> crate::parser::visibility_of(
            text_of(s, v[x]),
        ) is Some)
        &&& (v[x].rule == Rule::CloudLayer ==> layer_of(text_of(s, v[x])) is Some)
    } by {
        lemma_decoded_bounds(text_of(s, v[x]), v[x].rule);
    }
}

/// A decoded report has canonical text.
#[verifier::rlimit(30)]
proof fn lemma_decoded_encodable(s: Seq<char>)
    requires
        decode(s) is Ok,
        s.len() <= usize::MAX,
    ensures
        encodable(decode(s)->Ok_0),
{
    let v = parse_groups(s)->Ok_0;
    lemma_groups_shaped(s);
    lemma_sound_accum(s, v, v.len() as int);
}

/// Decoding is idempotent on its canonical text: writing a decoded report
/// back as canonical groups and decoding that text gives the same report
/// (for texts that fit in memory).
pub proof fn lemma_decoded_report_round_trip(s: Seq<char>)
    requires
        decode(s) is Ok,
        s.len() <= usize::MAX,
        report_text(decode(s)->Ok_0).len() <= usize::MAX,
    ensures
        decode(report_text(decode(s)->Ok_0)) == decode(s),
{
    lemma_decoded_encodable(s);
    lemma_report_round_trip(decode(s)->Ok_0);
}

} // verus!
