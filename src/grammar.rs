//! The group grammar: splits a report into space-separated tokens and
//! assigns each token the group it stands for, in the fixed order of a report.
use vstd::prelude::*;

use crate::metar::{kind_of_code, CloudKind};
use crate::text::{all_digits, chars_of, digits_at, is_alnum};

verus! {

/// The kind of group that a token of a report was matched as.
#[derive(Debug, Clone, Copy, PartialEq, Eq, Structural)]
pub enum Rule {
    Station,
    ObservationTime,
    AutoKw,
    Wind,
    Visibility,
    CloudsClear,
    CloudLayer,
    TempDew,
    Altimeter,
    RemarksKw,
    Remark,
    /// The end of the report, expected where text was left over.
    EndOfInput,
}

/// One matched group: its kind and the character range `start..end` it covers.
#[derive(Debug, Clone, Copy, PartialEq, Eq, Structural)]
pub struct Pair {
    pub rule: Rule,
    pub start: usize,
    pub end: usize,
}

/// Why a report does not match the grammar: the character position at which
/// matching failed, and the group that was required there.
#[derive(Debug, Clone, Copy, PartialEq, Eq, Structural)]
pub struct Malformed {
    pub position: usize,
    pub expected: Rule,
}

/// Scans the first `n` characters of `s`: the ranges of the tokens completed
/// so far, and the start of the token still open, if any.
pub open spec fn scan(s: Seq<char>, n: nat) -> (Seq<(int, int)>, Option<int>)
    decreases n,
{
    if n == 0 || n > s.len() {
        (seq![], None)
    } else {
        let (done, open) = scan(s, (n - 1) as nat);
        if s[n - 1] == ' ' {
            match open {
                Some(a) => (done.push((a, n - 1)), None),
                None => (done, None),
            }
        } else {
            match open {
                Some(a) => (done, Some(a)),
                None => (done, Some(n - 1)),
            }
        }
    }
}

/// The character ranges of the maximal runs of non-space characters of `s`.
pub open spec fn token_spans(s: Seq<char>) -> Seq<(int, int)> {
    let (done, open) = scan(s, s.len());
    match open {
        Some(a) => done.push((a, s.len() as int)),
        None => done,
    }
}

/// The tokens of `s`, in order.
pub open spec fn words(s: Seq<char>) -> Seq<Seq<char>> {
    token_spans(s).map_values(|p: (int, int)| s.subrange(p.0, p.1))
}

/// The index of the first `/` in `t`, or its length when there is none.
pub open spec fn slash_index(t: Seq<char>) -> int
    decreases t.len(),
{
    if t.len() == 0 {
        0
    } else if t[0] == '/' {
        0
    } else {
        1 + slash_index(t.drop_first())
    }
}

pub open spec fn is_station(w: Seq<char>) -> bool {
    w.len() == 4 && forall|i: int| 0 <= i < 4 ==> is_alnum(#[trigger] w[i])
}

pub open spec fn is_time(w: Seq<char>) -> bool {
    w.len() == 7 && all_digits(w.take(6)) && w[6] == 'Z'
}

pub open spec fn is_auto(w: Seq<char>) -> bool {
    w == seq!['A', 'U', 'T', 'O']
}

pub open spec fn is_wind(w: Seq<char>) -> bool {
    ||| (w.len() == 7 && all_digits(w.take(5)) && w[5] == 'K' && w[6] == 'T')
    ||| (w.len() == 10 && all_digits(w.take(5)) && w[5] == 'G' && all_digits(w.subrange(6, 8))
        && w[8] == 'K' && w[9] == 'T')
}

/// A whole number of one to nine digits, or a fraction of two such numbers.
pub open spec fn is_distance(d: Seq<char>) -> bool {
    let k = slash_index(d);
    if k == d.len() {
        0 < d.len() <= 9 && all_digits(d)
    } else {
        0 < k <= 9 && 0 < d.len() - k - 1 <= 9 && all_digits(d.take(k)) && all_digits(
            d.skip(k + 1),
        )
    }
}

pub open spec fn is_visibility(w: Seq<char>) -> bool {
    w.len() >= 3 && w[w.len() - 2] == 'S' && w[w.len() - 1] == 'M' && is_distance(
        w.take(w.len() - 2),
    )
}

pub open spec fn is_clear(w: Seq<char>) -> bool {
    w == seq!['C', 'L', 'R'] || w == seq!['S', 'K', 'C']
}

/// A known cloud kind code, then three digits of height.
pub open spec fn is_layer(w: Seq<char>) -> bool {
    w.len() == 6 && kind_of_code(w.subrange(0, 3)) is Some && all_digits(w.skip(3))
}

/// Two digits of magnitude, with `M` in front for a value below zero.
pub open spec fn is_temp(t: Seq<char>) -> bool {
    (t.len() == 2 && all_digits(t)) || (t.len() == 3 && t[0] == 'M' && all_digits(t.skip(1)))
}

pub open spec fn is_temp_dew(w: Seq<char>) -> bool {
    let k = slash_index(w);
    k < w.len() && is_temp(w.take(k)) && is_temp(w.skip(k + 1))
}

pub open spec fn is_altimeter(w: Seq<char>) -> bool {
    w.len() == 5 && w[0] == 'A' && all_digits(w.skip(1))
}

pub open spec fn is_rmk(w: Seq<char>) -> bool {
    w == seq!['R', 'M', 'K']
}

/// The index just past the run of cloud layer tokens that starts at `i`.
pub open spec fn layers_end(w: Seq<Seq<char>>, i: int) -> int
    decreases w.len() - i,
{
    if 0 <= i < w.len() && is_layer(w[i]) {
        layers_end(w, i + 1)
    } else {
        i
    }
}

pub open spec fn opt_rule(present: bool, r: Rule) -> Seq<Rule> {
    if present {
        seq![r]
    } else {
        seq![]
    }
}

/// Assigns each token its group, in the fixed order station, time, `AUTO`,
/// wind, visibility, clouds, temperature/dewpoint, altimeter, remarks; or gives
/// the index of the token (the number of tokens for the end of the report) at
/// which a required group is missing, with that group.
pub open spec fn classify(w: Seq<Seq<char>>) -> Result<Seq<Rule>, (int, Rule)> {
    let n = w.len() as int;
    if !(n > 0 && is_station(w[0])) {
        Err((0, Rule::Station))
    } else if !(n > 1 && is_time(w[1])) {
        Err((1, Rule::ObservationTime))
    } else {
        let auto = n > 2 && is_auto(w[2]);
        let i: int = if auto { 3 } else { 2 };
        if !(i < n && is_wind(w[i])) {
            Err((i, Rule::Wind))
        } else {
            match classify_body(w, i + 1) {
                Ok(rest) => Ok(
                    seq![Rule::Station, Rule::ObservationTime] + opt_rule(auto, Rule::AutoKw)
                        + seq![Rule::Wind] + rest,
                ),
                Err(e) => Err(e),
            }
        }
    }
}

/// The groups from token `i`, just after the wind group: visibility, clouds,
/// the temperature/dewpoint pair, then the trailing groups.
pub open spec fn classify_body(w: Seq<Seq<char>>, i: int) -> Result<Seq<Rule>, (int, Rule)> {
    let n = w.len() as int;
    let vis = i < n && is_visibility(w[i]);
    let j: int = if vis { i + 1 } else { i };
    let clear = j < n && is_clear(w[j]);
    let k: int = if clear { j + 1 } else { layers_end(w, j) };
    if !(k < n && is_temp_dew(w[k])) {
        Err((k, Rule::TempDew))
    } else {
        match classify_trailer(w, k + 1) {
            Ok(rest) => Ok(
                opt_rule(vis, Rule::Visibility) + (if clear {
                    seq![Rule::CloudsClear]
                } else {
                    Seq::new((k - j) as nat, |_x: int| Rule::CloudLayer)
                }) + seq![Rule::TempDew] + rest,
            ),
            Err(e) => Err(e),
        }
    }
}

/// The groups from token `k`, just after the temperature/dewpoint pair: the
/// altimeter, then the remarks keyword and every token after it.
pub open spec fn classify_trailer(w: Seq<Seq<char>>, k: int) -> Result<Seq<Rule>, (int, Rule)> {
    let n = w.len() as int;
    let alt = k < n && is_altimeter(w[k]);
    let m: int = if alt { k + 1 } else { k };
    let rmk = m < n && is_rmk(w[m]);
    if m < n && !rmk {
        Err((m, Rule::EndOfInput))
    } else {
        Ok(
            opt_rule(alt, Rule::Altimeter) + (if rmk {
                seq![Rule::RemarksKw] + Seq::new((n - m - 1) as nat, |_x: int| Rule::Remark)
            } else {
                seq![]
            }),
        )
    }
}

/// The outcome of matching the grammar against the report `s`.
pub open spec fn parse_groups(s: Seq<char>) -> Result<Seq<Pair>, Malformed> {
    let spans = token_spans(s);
    match classify(words(s)) {
        Ok(tags) => Ok(
            Seq::new(
                tags.len(),
                |x: int| Pair { rule: tags[x], start: spans[x].0 as usize, end: spans[x].1 as usize },
            ),
        ),
        Err((e, r)) => Err(
            Malformed {
                position: if e < spans.len() {
                    spans[e].0 as usize
                } else {
                    s.len() as usize
                },
                expected: r,
            },
        ),
    }
}


/// The views of a vector of exec token ranges.
pub open spec fn spans_view(v: Seq<(usize, usize)>) -> Seq<(int, int)> {
    v.map_values(|p: (usize, usize)| (p.0 as int, p.1 as int))
}

/// Splits `t` into its tokens, giving the range of each.
pub fn tokenize(t: &Vec<char>) -> (r: Vec<(usize, usize)>)
    ensures
        spans_view(r@) == token_spans(t@),
        forall|x: int| 0 <= x < r@.len() ==> #[trigger] r@[x].0 < r@[x].1 <= t@.len(),
{
    let mut done: Vec<(usize, usize)> = Vec::new();
    let mut open: Option<usize> = None;
    let mut i: usize = 0;
    while i < t.len()
        invariant
            i <= t@.len(),
            ({
                let (d, o) = scan(t@, i as nat);
                &&& spans_view(done@) == d
                &&& o == match open {
                    Some(a) => Some(a as int),
                    None => None::<int>,
                }
            }),
            forall|x: int| 0 <= x < done@.len() ==> #[trigger] done@[x].0 < done@[x].1 <= i,
            open matches Some(a) ==> a < i,
        decreases t@.len() - i,
    {
        let c = t[i];
        if c == ' ' {
            match open {
                Some(a) => {
                    done.push((a, i));
                    open = None;
                },
                None => {},
            }
        } else {
            match open {
                Some(_) => {},
                None => {
                    open = Some(i);
                },
            }
        }
        i = i + 1;
        proof {
            assert(spans_view(done@) =~= scan(t@, i as nat).0);
        }
    }
    match open {
        Some(a) => {
            done.push((a, i));
        },
        None => {},
    }
    assert(spans_view(done@) =~= token_spans(t@));
    done
}


/// `slash_index` is the first position holding `/`.
pub proof fn lemma_slash_index(t: Seq<char>, k: int)
    requires
        0 <= k <= t.len(),
        forall|j: int| 0 <= j < k ==> t[j] != '/',
        k == t.len() || t[k] == '/',
    ensures
        slash_index(t) == k,
    decreases t.len(),
{
    if t.len() > 0 && k > 0 {
        let u = t.drop_first();
        assert forall|j: int| 0 <= j < k - 1 implies u[j] != '/' by {
            assert(u[j] == t[j + 1]);
        }
        lemma_slash_index(u, k - 1);
    }
}

/// The position of the first `/` in `t[a..b]`, or `b` when there is none.
pub fn find_slash(t: &Vec<char>, a: usize, b: usize) -> (r: usize)
    requires
        a <= b <= t@.len(),
    ensures
        r == a + slash_index(t@.subrange(a as int, b as int)),
        a <= r <= b,
{
    let ghost w = t@.subrange(a as int, b as int);
    let mut i: usize = a;
    while i < b
        invariant
            a <= i <= b <= t@.len(),
            w == t@.subrange(a as int, b as int),
            forall|j: int| 0 <= j < i - a ==> w[j] != '/',
        decreases b - i,
    {
        if t[i] == '/' {
            proof {
                lemma_slash_index(w, i - a);
            }
            return i;
        }
        i = i + 1;
    }
    proof {
        lemma_slash_index(w, b - a);
    }
    b
}

fn is_station_at(t: &Vec<char>, a: usize, b: usize) -> (r: bool)
    requires
        a <= b <= t@.len(),
    ensures
        r == is_station(t@.subrange(a as int, b as int)),
{
    let ghost w = t@.subrange(a as int, b as int);
    if b - a != 4 {
        return false;
    }
    let mut i: usize = a;
    while i < b
        invariant
            a <= i <= b <= t@.len(),
            b - a == 4,
            w == t@.subrange(a as int, b as int),
            forall|j: int| 0 <= j < i - a ==> is_alnum(#[trigger] w[j]),
        decreases b - i,
    {
        let c = t[i];
        if !(('0' <= c && c <= '9') || ('A' <= c && c <= 'Z') || ('a' <= c && c <= 'z')) {
            assert(!is_alnum(w[i - a]));
            return false;
        }
        i = i + 1;
    }
    true
}

fn is_time_at(t: &Vec<char>, a: usize, b: usize) -> (r: bool)
    requires
        a <= b <= t@.len(),
    ensures
        r == is_time(t@.subrange(a as int, b as int)),
{
    let ghost w = t@.subrange(a as int, b as int);
    if b - a != 7 {
        return false;
    }
    assert(w.take(6) =~= t@.subrange(a as int, a + 6));
    digits_at(t, a, a + 6) && t[a + 6] == 'Z'
}

fn is_auto_at(t: &Vec<char>, a: usize, b: usize) -> (r: bool)
    requires
        a <= b <= t@.len(),
    ensures
        r == is_auto(t@.subrange(a as int, b as int)),
{
    let ghost w = t@.subrange(a as int, b as int);
    if b - a != 4 {
        assert(seq!['A', 'U', 'T', 'O'].len() == 4);
        return false;
    }
    let r = t[a] == 'A' && t[a + 1] == 'U' && t[a + 2] == 'T' && t[a + 3] == 'O';
    if r {
        assert(w =~= seq!['A', 'U', 'T', 'O']);
    } else {
        assert(w != seq!['A', 'U', 'T', 'O'] ) by {
            if w == seq!['A', 'U', 'T', 'O'] {
                assert(w[0] == 'A' && w[1] == 'U' && w[2] == 'T' && w[3] == 'O');
            }
        }
    }
    r
}

fn is_wind_at(t: &Vec<char>, a: usize, b: usize) -> (r: bool)
    requires
        a <= b <= t@.len(),
    ensures
        r == is_wind(t@.subrange(a as int, b as int)),
{
    let ghost w = t@.subrange(a as int, b as int);
    if b - a != 7 && b - a != 10 {
        return false;
    }
    assert(w.take(5) =~= t@.subrange(a as int, a + 5));
    if !digits_at(t, a, a + 5) {
        return false;
    }
    if b - a == 7 {
        t[a + 5] == 'K' && t[a + 6] == 'T'
    } else {
        assert(w.subrange(6, 8) =~= t@.subrange(a + 6, a + 8));
        t[a + 5] == 'G' && digits_at(t, a + 6, a + 8) && t[a + 8] == 'K' && t[a + 9] == 'T'
    }
}

fn is_distance_at(t: &Vec<char>, a: usize, b: usize) -> (r: bool)
    requires
        a <= b <= t@.len(),
    ensures
        r == is_distance(t@.subrange(a as int, b as int)),
{
    let ghost d = t@.subrange(a as int, b as int);
    let k = find_slash(t, a, b);
    if k == b {
        a < b && b - a <= 9 && digits_at(t, a, b)
    } else {
        assert(d.take(k - a) =~= t@.subrange(a as int, k as int));
        assert(d.skip(k - a + 1) =~= t@.subrange(k + 1, b as int));
        a < k && k - a <= 9 && k + 1 < b && b - (k + 1) <= 9 && digits_at(t, a, k) && digits_at(
            t,
            k + 1,
            b,
        )
    }
}

pub(crate) fn is_visibility_at(t: &Vec<char>, a: usize, b: usize) -> (r: bool)
    requires
        a <= b <= t@.len(),
    ensures
        r == is_visibility(t@.subrange(a as int, b as int)),
{
    let ghost w = t@.subrange(a as int, b as int);
    if b - a < 3 {
        return false;
    }
    assert(w.take(w.len() - 2) =~= t@.subrange(a as int, b - 2));
    t[b - 2] == 'S' && t[b - 1] == 'M' && is_distance_at(t, a, b - 2)
}

fn is_clear_at(t: &Vec<char>, a: usize, b: usize) -> (r: bool)
    requires
        a <= b <= t@.len(),
    ensures
        r == is_clear(t@.subrange(a as int, b as int)),
{
    let ghost w = t@.subrange(a as int, b as int);
    if b - a != 3 {
        assert(seq!['C', 'L', 'R'].len() == 3 && seq!['S', 'K', 'C'].len() == 3);
        return false;
    }
    let (x, y, z) = (t[a], t[a + 1], t[a + 2]);
    assert(w[0] == x && w[1] == y && w[2] == z);
    if x == 'C' && y == 'L' && z == 'R' {
        assert(w =~= seq!['C', 'L', 'R']);
        true
    } else if x == 'S' && y == 'K' && z == 'C' {
        assert(w =~= seq!['S', 'K', 'C']);
        true
    } else {
        false
    }
}

fn is_layer_at(t: &Vec<char>, a: usize, b: usize) -> (r: bool)
    requires
        a <= b <= t@.len(),
    ensures
        r == is_layer(t@.subrange(a as int, b as int)),
{
    let ghost w = t@.subrange(a as int, b as int);
    if b - a != 6 {
        return false;
    }
    assert(w.skip(3) =~= t@.subrange(a + 3, b as int));
    assert(w.subrange(0, 3) =~= t@.subrange(a as int, a + 3));
    match CloudKind::from_code_at(t, a, a + 3) {
        Some(_) => digits_at(t, a + 3, b),
        None => false,
    }
}

fn is_temp_at(t: &Vec<char>, a: usize, b: usize) -> (r: bool)
    requires
        a <= b <= t@.len(),
    ensures
        r == is_temp(t@.subrange(a as int, b as int)),
{
    let ghost w = t@.subrange(a as int, b as int);
    if b - a == 2 {
        digits_at(t, a, b)
    } else if b - a == 3 {
        assert(w.skip(1) =~= t@.subrange(a + 1, b as int));
        t[a] == 'M' && digits_at(t, a + 1, b)
    } else {
        false
    }
}

fn is_temp_dew_at(t: &Vec<char>, a: usize, b: usize) -> (r: bool)
    requires
        a <= b <= t@.len(),
    ensures
        r == is_temp_dew(t@.subrange(a as int, b as int)),
{
    let ghost w = t@.subrange(a as int, b as int);
    let k = find_slash(t, a, b);
    if k == b {
        return false;
    }
    assert(w.take(k - a) =~= t@.subrange(a as int, k as int));
    assert(w.skip(k - a + 1) =~= t@.subrange(k + 1, b as int));
    is_temp_at(t, a, k) && is_temp_at(t, k + 1, b)
}

fn is_altimeter_at(t: &Vec<char>, a: usize, b: usize) -> (r: bool)
    requires
        a <= b <= t@.len(),
    ensures
        r == is_altimeter(t@.subrange(a as int, b as int)),
{
    let ghost w = t@.subrange(a as int, b as int);
    if b - a != 5 {
        return false;
    }
    assert(w.skip(1) =~= t@.subrange(a + 1, b as int));
    t[a] == 'A' && digits_at(t, a + 1, b)
}

fn is_rmk_at(t: &Vec<char>, a: usize, b: usize) -> (r: bool)
    requires
        a <= b <= t@.len(),
    ensures
        r == is_rmk(t@.subrange(a as int, b as int)),
{
    let ghost w = t@.subrange(a as int, b as int);
    if b - a != 3 {
        assert(seq!['R', 'M', 'K'].len() == 3);
        return false;
    }
    let (x, y, z) = (t[a], t[a + 1], t[a + 2]);
    assert(w[0] == x && w[1] == y && w[2] == z);
    if x == 'R' && y == 'M' && z == 'K' {
        assert(w =~= seq!['R', 'M', 'K']);
        true
    } else {
        false
    }
}


/// Whether the token `w` has the shape of group `rule`.
pub open spec fn has_shape(w: Seq<char>, rule: Rule) -> bool {
    match rule {
        Rule::Station => is_station(w),
        Rule::ObservationTime => is_time(w),
        Rule::AutoKw => is_auto(w),
        Rule::Wind => is_wind(w),
        Rule::Visibility => is_visibility(w),
        Rule::CloudsClear => is_clear(w),
        Rule::CloudLayer => is_layer(w),
        Rule::TempDew => is_temp_dew(w),
        Rule::Altimeter => is_altimeter(w),
        Rule::RemarksKw => is_rmk(w),
        Rule::Remark => true,
        Rule::EndOfInput => false,
    }
}

/// `sp` holds the token ranges of `t`.
pub open spec fn tokens_of(t: Seq<char>, sp: Seq<(usize, usize)>) -> bool {
    &&& spans_view(sp) == token_spans(t)
    &&& forall|x: int| 0 <= x < sp.len() ==> #[trigger] sp[x].0 < sp[x].1 <= t.len()
}

/// Each group of `v` lies within `t` and has the shape of its kind.
pub open spec fn shaped(t: Seq<char>, v: Seq<Pair>) -> bool {
    forall|x: int|
        0 <= x < v.len() ==> {
            &&& #[trigger] v[x].start < v[x].end <= t.len()
            &&& has_shape(t.subrange(v[x].start as int, v[x].end as int), v[x].rule)
        }
}

/// The matched groups for tokens tagged `tags`, with the ranges `sp`.
pub open spec fn pairs_of(tags: Seq<Rule>, sp: Seq<(usize, usize)>) -> Seq<Pair> {
    Seq::new(tags.len(), |x: int| Pair { rule: tags[x], start: sp[x].0, end: sp[x].1 })
}

proof fn lemma_word(t: Seq<char>, sp: Seq<(usize, usize)>, x: int)
    requires
        tokens_of(t, sp),
        0 <= x < sp.len(),
    ensures
        words(t).len() == sp.len(),
        words(t)[x] == t.subrange(sp[x].0 as int, sp[x].1 as int),
        token_spans(t)[x] == (sp[x].0 as int, sp[x].1 as int),
{
    assert(spans_view(sp)[x] == (sp[x].0 as int, sp[x].1 as int));
}

/// Matches reports against the group grammar.
pub struct MetarParser;

impl MetarParser {
    fn shape_at(t: &Vec<char>, sp: &Vec<(usize, usize)>, x: usize, rule: Rule) -> (r: bool)
        requires
            tokens_of(t@, sp@),
            x < sp@.len(),
        ensures
            r == has_shape(words(t@)[x as int], rule),
    {
        proof {
            lemma_word(t@, sp@, x as int);
        }
        let (a, b) = sp[x];
        match rule {
            Rule::Station => is_station_at(t, a, b),
            Rule::ObservationTime => is_time_at(t, a, b),
            Rule::AutoKw => is_auto_at(t, a, b),
            Rule::Wind => is_wind_at(t, a, b),
            Rule::Visibility => is_visibility_at(t, a, b),
            Rule::CloudsClear => is_clear_at(t, a, b),
            Rule::CloudLayer => is_layer_at(t, a, b),
            Rule::TempDew => is_temp_dew_at(t, a, b),
            Rule::Altimeter => is_altimeter_at(t, a, b),
            Rule::RemarksKw => is_rmk_at(t, a, b),
            Rule::Remark => true,
            Rule::EndOfInput => false,
        }
    }

    fn failure(t: &Vec<char>, sp: &Vec<(usize, usize)>, e: usize, rule: Rule) -> (r: Malformed)
        requires
            tokens_of(t@, sp@),
        ensures
            r == (Malformed {
                position: if (e as int) < token_spans(t@).len() {
                    token_spans(t@)[e as int].0 as usize
                } else {
                    t@.len() as usize
                },
                expected: rule,
            }),
    {
        if e < sp.len() {
            proof {
                lemma_word(t@, sp@, e as int);
            }
            Malformed { position: sp[e].0, expected: rule }
        } else {
            Malformed { position: t.len(), expected: rule }
        }
    }

    fn add(
        t: &Vec<char>,
        pairs: &mut Vec<Pair>,
        g: Ghost<Seq<Rule>>,
        sp: &Vec<(usize, usize)>,
        rule: Rule,
    )
        requires
            tokens_of(t@, sp@),
            old(pairs)@ == pairs_of(g@, sp@),
            g@.len() < sp@.len(),
            has_shape(words(t@)[g@.len() as int], rule),
            shaped(t@, old(pairs)@),
        ensures
            final(pairs)@ == pairs_of(g@.push(rule), sp@),
            shaped(t@, final(pairs)@),
    {
        proof {
            lemma_word(t@, sp@, g@.len() as int);
        }
        let x = pairs.len();
        pairs.push(Pair { rule, start: sp[x].0, end: sp[x].1 });
        assert(pairs@ =~= pairs_of(g@.push(rule), sp@));
    }

    /// Tags the run of cloud layer tokens that starts at token `j`, giving
    /// the index just past it.
    fn layer_run(
        t: &Vec<char>,
        sp: &Vec<(usize, usize)>,
        j: usize,
        pairs: &mut Vec<Pair>,
        g: Ghost<Seq<Rule>>,
    ) -> (k: usize)
        requires
            tokens_of(t@, sp@),
            j <= sp@.len(),
            g@.len() == j,
            old(pairs)@ == pairs_of(g@, sp@),
            shaped(t@, old(pairs)@),
        ensures
            shaped(t@, final(pairs)@),
            k == layers_end(words(t@), j as int),
            j <= k <= sp@.len(),
            final(pairs)@ == pairs_of(g@ + Seq::new((k - j) as nat, |_x: int| Rule::CloudLayer), sp@),
    {
        let n = sp.len();
        let ghost w = words(t@);
        proof {
            if n > 0 {
                lemma_word(t@, sp@, 0);
            }
        }
        let mut k: usize = j;
        let mut stop = false;
        while k < n && !stop
            invariant
                tokens_of(t@, sp@),
                w == words(t@),
                n == sp@.len() == w.len(),
                g@.len() == j,
                shaped(t@, pairs@),
                j <= k <= n,
                layers_end(w, j as int) == layers_end(w, k as int),
                stop ==> k < n && !is_layer(w[k as int]),
                pairs@ == pairs_of(g@ + Seq::new((k - j) as nat, |_x: int| Rule::CloudLayer), sp@),
            decreases n - k, if stop { 0int } else { 1int },
        {
            if Self::shape_at(t, sp, k, Rule::CloudLayer) {
                let ghost h = g@ + Seq::new((k - j) as nat, |_x: int| Rule::CloudLayer);
                assert(h.len() == k);
                Self::add(t, pairs, Ghost(h), sp, Rule::CloudLayer);
                proof {
                    assert(h.push(Rule::CloudLayer) =~= g@ + Seq::new((k + 1 - j) as nat, |_x: int| Rule::CloudLayer));
                }
                k = k + 1;
            } else {
                stop = true;
            }
        }
        k
    }

    /// Tags every token after the remarks keyword as a remark.
    fn remark_run(t: &Vec<char>, sp: &Vec<(usize, usize)>, pairs: &mut Vec<Pair>, g: Ghost<Seq<Rule>>)
        requires
            tokens_of(t@, sp@),
            shaped(t@, old(pairs)@),
            g@.len() <= sp@.len(),
            old(pairs)@ == pairs_of(g@, sp@),
        ensures
            shaped(t@, final(pairs)@),
            final(pairs)@ == pairs_of(g@ + Seq::new((sp@.len() - g@.len()) as nat, |_x: int| Rule::Remark), sp@),
    {
        let n = sp.len();
        let m = pairs.len();
        let mut x: usize = m;
        while x < n
            invariant
                m <= x <= n,
                n == sp@.len(),
                m == g@.len(),
                tokens_of(t@, sp@),
                shaped(t@, pairs@),
                pairs@ == pairs_of(g@ + Seq::new((x - m) as nat, |_x: int| Rule::Remark), sp@),
            decreases n - x,
        {
            let ghost h = g@ + Seq::new((x - m) as nat, |_x: int| Rule::Remark);
            Self::add(t, pairs, Ghost(h), sp, Rule::Remark);
            proof {
                assert(h.push(Rule::Remark) =~= g@ + Seq::new((x + 1 - m) as nat, |_x: int| Rule::Remark));
            }
            x = x + 1;
        }
    }

    /// Tags the tokens after the temperature/dewpoint pair, from token `k`.
    fn trailer_groups(
        t: &Vec<char>,
        sp: &Vec<(usize, usize)>,
        k: usize,
        pairs: &mut Vec<Pair>,
        g: Ghost<Seq<Rule>>,
    ) -> (r: Result<(), (usize, Rule)>)
        requires
            tokens_of(t@, sp@),
            k <= sp@.len(),
            g@.len() == k,
            old(pairs)@ == pairs_of(g@, sp@),
            shaped(t@, old(pairs)@),
        ensures
            shaped(t@, final(pairs)@),
            match r {
                Ok(_) => final(pairs)@.len() == sp@.len() && classify_trailer(words(t@), k as int) is Ok && final(pairs)@ == pairs_of(
                    g@ + classify_trailer(words(t@), k as int)->Ok_0,
                    sp@,
                ),
                Err((e, rule)) => classify_trailer(words(t@), k as int) == Err::<Seq<Rule>, (int, Rule)>((e as int, rule)),
            },
    {
        let n = sp.len();
        let ghost w = words(t@);
        let ghost mut h = g@;
        let alt = k < n && Self::shape_at(t, sp, k, Rule::Altimeter);
        if alt {
            Self::add(t, pairs, Ghost(h), sp, Rule::Altimeter);
            proof { h = h.push(Rule::Altimeter); }
        }
        let m: usize = if alt { k + 1 } else { k };
        let rmk = m < n && Self::shape_at(t, sp, m, Rule::RemarksKw);
        if m < n && !rmk {
            return Err((m, Rule::EndOfInput));
        }
        if rmk {
            Self::add(t, pairs, Ghost(h), sp, Rule::RemarksKw);
            proof { h = h.push(Rule::RemarksKw); }
            Self::remark_run(t, sp, pairs, Ghost(h));
            proof { h = h + Seq::new((n - m - 1) as nat, |_x: int| Rule::Remark); }
        }
        proof {
            assert(h =~= g@ + classify_trailer(w, k as int)->Ok_0);
        }
        Ok(())
    }

    /// Tags the tokens after the wind group, from token `i`.
    fn body_groups(
        t: &Vec<char>,
        sp: &Vec<(usize, usize)>,
        i: usize,
        pairs: &mut Vec<Pair>,
        g: Ghost<Seq<Rule>>,
    ) -> (r: Result<(), (usize, Rule)>)
        requires
            tokens_of(t@, sp@),
            i <= sp@.len(),
            g@.len() == i,
            old(pairs)@ == pairs_of(g@, sp@),
            shaped(t@, old(pairs)@),
        ensures
            shaped(t@, final(pairs)@),
            match r {
                Ok(_) => final(pairs)@.len() == sp@.len() && classify_body(words(t@), i as int) is Ok && final(pairs)@ == pairs_of(
                    g@ + classify_body(words(t@), i as int)->Ok_0,
                    sp@,
                ),
                Err((e, rule)) => classify_body(words(t@), i as int) == Err::<Seq<Rule>, (int, Rule)>((e as int, rule)),
            },
    {
        let n = sp.len();
        let ghost w = words(t@);
        let ghost mut h = g@;
        let vis = i < n && Self::shape_at(t, sp, i, Rule::Visibility);
        if vis {
            Self::add(t, pairs, Ghost(h), sp, Rule::Visibility);
            proof { h = h.push(Rule::Visibility); }
        }
        let j: usize = if vis { i + 1 } else { i };
        let clear = j < n && Self::shape_at(t, sp, j, Rule::CloudsClear);
        let k: usize = if clear {
            Self::add(t, pairs, Ghost(h), sp, Rule::CloudsClear);
            proof { h = h.push(Rule::CloudsClear); }
            j + 1
        } else {
            let k = Self::layer_run(t, sp, j, pairs, Ghost(h));
            proof { h = h + Seq::new((k - j) as nat, |_x: int| Rule::CloudLayer); }
            k
        };
        if !(k < n && Self::shape_at(t, sp, k, Rule::TempDew)) {
            return Err((k, Rule::TempDew));
        }
        Self::add(t, pairs, Ghost(h), sp, Rule::TempDew);
        proof { h = h.push(Rule::TempDew); }
        let r = Self::trailer_groups(t, sp, k + 1, pairs, Ghost(h));
        match r {
            Ok(_) => {
                proof {
                    let rest = classify_trailer(w, k + 1)->Ok_0;
                    assert(h + rest =~= g@ + classify_body(w, i as int)->Ok_0);
                }
                Ok(())
            },
            Err(e) => Err(e),
        }
    }

    /// Matches the report `s` against the grammar, giving each token's group
    /// in order, or where and why matching failed.
    pub fn parse(s: &str) -> (r: Result<Vec<Pair>, Malformed>)
        ensures
            match r {
                Ok(v) => parse_groups(s@) == Ok::<Seq<Pair>, Malformed>(v@),
                Err(m) => parse_groups(s@) == Err::<Seq<Pair>, Malformed>(m),
            },
    {
        let t = chars_of(s);
        Self::parse_chars(&t)
    }

    /// Matches the report whose characters are `t` against the grammar; each
    /// matched group lies within `t` and has the shape of its kind.
    #[verifier::rlimit(40)]
    pub fn parse_chars(t: &Vec<char>) -> (r: Result<Vec<Pair>, Malformed>)
        ensures
            match r {
                Ok(v) => parse_groups(t@) == Ok::<Seq<Pair>, Malformed>(v@) && shaped(t@, v@),
                Err(m) => parse_groups(t@) == Err::<Seq<Pair>, Malformed>(m),
            },
    {
        let ghost s = t@;
        let sp = tokenize(t);
        let n = sp.len();
        let ghost w = words(t@);
        proof {
            if n > 0 {
                lemma_word(t@, sp@, 0);
            }
            assert(w.len() == n);
        }
        let mut pairs: Vec<Pair> = Vec::new();
        let ghost mut g: Seq<Rule> = seq![];
        assert(pairs@ =~= pairs_of(g, sp@));
        if !(n > 0 && Self::shape_at(t, &sp, 0, Rule::Station)) {
            return Err(Self::failure(t, &sp, 0, Rule::Station));
        }
        Self::add(t, &mut pairs, Ghost(g), &sp, Rule::Station);
        proof { g = g.push(Rule::Station); }
        if !(n > 1 && Self::shape_at(t, &sp, 1, Rule::ObservationTime)) {
            return Err(Self::failure(t, &sp, 1, Rule::ObservationTime));
        }
        Self::add(t, &mut pairs, Ghost(g), &sp, Rule::ObservationTime);
        proof { g = g.push(Rule::ObservationTime); }
        let auto = n > 2 && Self::shape_at(t, &sp, 2, Rule::AutoKw);
        if auto {
            Self::add(t, &mut pairs, Ghost(g), &sp, Rule::AutoKw);
            proof { g = g.push(Rule::AutoKw); }
        }
        let i: usize = if auto { 3 } else { 2 };
        if !(i < n && Self::shape_at(t, &sp, i, Rule::Wind)) {
            return Err(Self::failure(t, &sp, i, Rule::Wind));
        }
        Self::add(t, &mut pairs, Ghost(g), &sp, Rule::Wind);
        proof { g = g.push(Rule::Wind); }
        match Self::body_groups(t, &sp, i + 1, &mut pairs, Ghost(g)) {
            Ok(_) => {},
            Err((e, rule)) => {
                return Err(Self::failure(t, &sp, e, rule));
            },
        }
        proof {
            let tags = classify(w)->Ok_0;
            assert(g + classify_body(w, i + 1)->Ok_0 =~= tags);
            assert forall|x: int| 0 <= x < tags.len() implies token_spans(t@)[x] == (
            sp@[x].0 as int,
            sp@[x].1 as int,
            ) by {
                lemma_word(t@, sp@, x);
            }
            assert(pairs@ =~= parse_groups(s)->Ok_0);
        }
        Ok(pairs)
    }
}

} // verus!
