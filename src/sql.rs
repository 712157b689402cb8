use vstd::prelude::*;

use crate::errors::{DBError, Result};

verus! {

/// The filter of a WHERE clause.
pub const WHERE_PATTERN: &'static str = r"^(\w+)\s*(=|!=|<|<=|>|>=)\s*(.+)$";

pub const CREATE_PATTERN: &'static str = r"^create table\s+(?P<table>\w+)\s+\(\s*(?P<decls>(?:\w+\s+\w+,\s*)*)(?P<last_decl>\w+\s+\w+\s*)\)$";

pub const DROP_PATTERN: &'static str = r"^drop table\s+(?P<table>\w+)$";

pub const INSERT_PATTERN: &'static str = r"^insert into\s+(?P<table>\w+)\s+values\s+\((?P<vals>(?:.+?,\s*)*)(?P<last_val>.+?)\)$";

pub const SELECT_PATTERN: &'static str = r"^select\s+(\*|(?P<cols>(?:\w+,\s*)*)(?P<last_col>\w+))\s+from\s+(?P<table>\w+)(?:\s+where\s+(?P<where_clause>.+))?$";

pub const UPDATE_PATTERN: &'static str = r"^update\s+(?P<table>\w+)\s+set\s+(?P<updates>(?:\w+\s*=\s*.+?,\s*)*)(?P<last_update>(?:\w+\s*=\s*.+?))(?:\s+where\s+(?P<where_clause>.+))?$";

pub const DELETE_PATTERN: &'static str = r"^delete from\s+(?P<table>\w+)(?:\s+where\s+(?P<where_clause>.+))?$";

/// What the regex crate finds of `pattern` in `text`: `None` when the pattern
/// does not compile or does not match; else, for each capture group in order
/// (the whole match first), the text it captured if it took part.
pub uninterp spec fn captures_of(pattern: Seq<char>, text: Seq<char>) -> Option<Seq<Option<Seq<char>>>>;

/// A whitespace character in the sense of `char::is_whitespace`: one with
/// Unicode's White_Space property.
pub open spec fn is_ws(c: char) -> bool {
    let u = c as u32;
    ||| 0x09 <= u <= 0x0d
    ||| u == 0x20
    ||| u == 0x85
    ||| u == 0xa0
    ||| u == 0x1680
    ||| 0x2000 <= u <= 0x200a
    ||| u == 0x2028
    ||| u == 0x2029
    ||| u == 0x202f
    ||| u == 0x205f
    ||| u == 0x3000
}

pub open spec fn groups_view(v: Seq<Option<String>>) -> Seq<Option<Seq<char>>> {
    v.map_values(|o: Option<String>| match o {
        Some(s) => Some(s@),
        None => None,
    })
}

/// Relies on regex's `Regex::new` and `Regex::captures`: the text of each
/// capture group of the first match, by group index.
#[verifier::external_body]
fn captures(pattern: &str, text: &str) -> (r: Option<Vec<Option<String>>>)
    ensures
        r is None <==> captures_of(pattern@, text@) is None,
        r matches Some(v) ==> captures_of(pattern@, text@) == Some(groups_view(v@)),
{
    let re = regex::Regex::new(pattern).ok()?;
    let caps = re.captures(text)?;
    Some(caps.iter().map(|m| m.map(|m| m.as_str().to_owned())).collect())
}

/// Whether `c` is whitespace, as statements are cut and trimmed.
pub fn is_whitespace(c: char) -> (r: bool)
    ensures
        r == is_ws(c),
{
    let u = c as u32;
    (0x09 <= u && u <= 0x0d) || u == 0x20 || u == 0x85 || u == 0xa0 || u == 0x1680 || (0x2000 <= u
        && u <= 0x200a) || u == 0x2028 || u == 0x2029 || u == 0x202f || u == 0x205f || u == 0x3000
}


/// Group `i` of a match, if it took part.
pub open spec fn group(g: Seq<Option<Seq<char>>>, i: int) -> Option<Seq<char>> {
    if 0 <= i < g.len() {
        g[i]
    } else {
        None
    }
}

/// `s` cut at every comma.
pub open spec fn pieces(s: Seq<char>) -> Seq<Seq<char>>
    decreases s.len(),
{
    if s.len() == 0 {
        seq![Seq::empty()]
    } else if s.last() == ',' {
        pieces(s.drop_last()).push(Seq::empty())
    } else {
        let p = pieces(s.drop_last());
        p.update(p.len() - 1, p.last().push(s.last()))
    }
}

pub open spec fn trim_start(s: Seq<char>) -> Seq<char>
    decreases s.len(),
{
    if s.len() > 0 && is_ws(s[0]) {
        trim_start(s.drop_first())
    } else {
        s
    }
}

pub open spec fn trim_end(s: Seq<char>) -> Seq<char>
    decreases s.len(),
{
    if s.len() > 0 && is_ws(s.last()) {
        trim_end(s.drop_last())
    } else {
        s
    }
}

/// `s` without whitespace at either end.
pub open spec fn trim(s: Seq<char>) -> Seq<char> {
    trim_end(trim_start(s))
}

/// The trimmed pieces that are not empty, in order.
pub open spec fn kept(ps: Seq<Seq<char>>) -> Seq<Seq<char>>
    decreases ps.len(),
{
    if ps.len() == 0 {
        Seq::empty()
    } else {
        kept(ps.drop_last()) + if trim(ps.last()).len() > 0 {
            seq![trim(ps.last())]
        } else {
            Seq::empty()
        }
    }
}

/// A list written as `head` (comma-separated items, blanks ignored) and its
/// last item `last`.
pub open spec fn list_of(head: Seq<char>, last: Seq<char>) -> Seq<Seq<char>> {
    kept(pieces(head)).push(last)
}

/// `s` cut at position `i`; the character there goes to neither part.
pub open spec fn cut_at(s: Seq<char>, i: int) -> (Seq<char>, Seq<char>) {
    (s.take(i), s.skip(i + 1))
}

/// `s` cut at its first whitespace character.
pub open spec fn split_ws(s: Seq<char>) -> Option<(Seq<char>, Seq<char>)> {
    if exists|i: int| 0 <= i < s.len() && is_ws(s[i]) {
        let i = choose|i: int| 0 <= i < s.len() && is_ws(s[i]) && forall|j: int| 0 <= j < i ==> !is_ws(s[j]);
        Some(cut_at(s, i))
    } else {
        None
    }
}

/// `s` cut at its first `=`, both parts trimmed.
pub open spec fn split_eq(s: Seq<char>) -> Option<(Seq<char>, Seq<char>)> {
    if exists|i: int| 0 <= i < s.len() && s[i] == '=' {
        let i = choose|i: int| 0 <= i < s.len() && s[i] == '=' && forall|j: int| 0 <= j < i ==> s[j] != '=';
        Some((trim(s.take(i)), trim(s.skip(i + 1))))
    } else {
        None
    }
}

pub open spec fn strs(v: Seq<String>) -> Seq<Seq<char>> {
    v.map_values(|s: String| s@)
}

/// `column op value`, as written.
pub struct Filter {
    pub column: String,
    pub op: String,
    pub value: String,
}

/// A statement cut into its textual pieces.
pub enum Statement {
    CreateTable { table: String, columns: Vec<(String, String)> },
    DropTable { table: String },
    Insert { table: String, values: Vec<String> },
    Select { table: String, columns: Option<Vec<String>>, filter: Option<Filter> },
    Update { table: String, assignments: Vec<(String, String)>, filter: Option<Filter> },
    Delete { table: String, filter: Option<Filter> },
}

fn chars_of(s: &str) -> (r: Vec<char>)
    ensures
        r@ == s@,
{
    let n = s.unicode_len();
    let mut r: Vec<char> = Vec::new();
    let mut i: usize = 0;
    while i < n
        invariant
            n == s@.len(),
            0 <= i <= n,
            r@ == s@.take(i as int),
        decreases n - i,
    {
        r.push(s.get_char(i));
        i = i + 1;
        assert(r@ =~= s@.take(i as int));
    }
    assert(s@.take(i as int) =~= s@);
    r
}

proof fn lemma_trim_start_step(s: Seq<char>, a: int, b: int)
    requires
        0 <= a < b <= s.len(),
        is_ws(s[a]),
    ensures
        trim_start(s.subrange(a, b)) == trim_start(s.subrange(a + 1, b)),
{
    assert(s.subrange(a, b).drop_first() =~= s.subrange(a + 1, b));
}

proof fn lemma_trim_end_step(s: Seq<char>, a: int, b: int)
    requires
        0 <= a < b <= s.len(),
        is_ws(s[b - 1]),
    ensures
        trim_end(s.subrange(a, b)) == trim_end(s.subrange(a, b - 1)),
{
    assert(s.subrange(a, b).drop_last() =~= s.subrange(a, b - 1));
}

/// The bounds of `s[a..b]` without whitespace at either end.
fn trim_bounds(s: &Vec<char>, a: usize, b: usize) -> (r: (usize, usize))
    requires
        a <= b <= s@.len(),
    ensures
        a <= r.0 <= r.1 <= b,
        s@.subrange(r.0 as int, r.1 as int) == trim(s@.subrange(a as int, b as int)),
{
    let mut lo = a;
    while lo < b && is_whitespace(s[lo])
        invariant
            a <= lo <= b <= s@.len(),
            trim_start(s@.subrange(a as int, b as int)) == trim_start(s@.subrange(lo as int, b as int)),
        decreases b - lo,
    {
        proof {
            lemma_trim_start_step(s@, lo as int, b as int);
        }
        lo = lo + 1;
    }
    let ghost start = s@.subrange(lo as int, b as int);
    proof {
        if lo < b {
            assert(start[0] == s@[lo as int]);
        }
        assert(trim_start(start) == start);
    }
    let mut hi = b;
    while hi > lo && is_whitespace(s[hi - 1])
        invariant
            a <= lo <= hi <= b <= s@.len(),
            trim_end(start) == trim_end(s@.subrange(lo as int, hi as int)),
            start == s@.subrange(lo as int, b as int),
        decreases hi - lo,
    {
        proof {
            lemma_trim_end_step(s@, lo as int, hi as int);
        }
        hi = hi - 1;
    }
    proof {
        let m = s@.subrange(lo as int, hi as int);
        if hi > lo {
            assert(m.last() == s@[hi - 1]);
        }
        assert(trim_end(m) == m);
    }
    (lo, hi)
}

fn substring(s: &Vec<char>, text: &str, a: usize, b: usize) -> (r: String)
    requires
        s@ == text@,
        a <= b <= s@.len(),
    ensures
        r@ == s@.subrange(a as int, b as int),
{
    String::from_str(text.substring_char(a, b))
}

/// The items of a comma-separated list, trimmed, blanks left out.
fn list_items(text: &str) -> (r: Vec<String>)
    ensures
        strs(r@) == kept(pieces(text@)),
{
    let s = chars_of(text);
    let ghost mut done: Seq<Seq<char>> = Seq::empty();
    let mut out: Vec<String> = Vec::new();
    let mut start: usize = 0;
    let mut i: usize = 0;
    assert(pieces(s@.take(0)) =~= seq![Seq::<char>::empty()]) by {
        assert(s@.take(0) =~= Seq::<char>::empty());
    }
    assert(s@.subrange(0, 0) =~= Seq::<char>::empty());
    assert(done.push(s@.subrange(0, 0)) =~= seq![Seq::<char>::empty()]);
    while i < s.len()
        invariant
            s@ == text@,
            0 <= start <= i <= s@.len(),
            pieces(s@.take(i as int)) == done.push(s@.subrange(start as int, i as int)),
            strs(out@) == kept(done),
        decreases s@.len() - i,
    {
        proof {
            assert(s@.take(i + 1).drop_last() =~= s@.take(i as int));
            assert(s@.take(i + 1).last() == s@[i as int]);
        }
        if s[i] == ',' {
            let (lo, hi) = trim_bounds(&s, start, i);
            let ghost piece = s@.subrange(start as int, i as int);
            let ghost prev = strs(out@);
            if lo < hi {
                out.push(substring(&s, text, lo, hi));
                proof {
                    assert(strs(out@) =~= prev.push(trim(piece)));
                }
            }
            proof {
                assert(done.push(piece).drop_last() =~= done);
                assert(kept(done.push(piece)) =~= kept(done) + if trim(piece).len() > 0 {
                    seq![trim(piece)]
                } else {
                    Seq::<Seq<char>>::empty()
                });
                done = done.push(piece);
                assert(s@.subrange(i + 1, i + 1) =~= Seq::<char>::empty());
            }
            start = i + 1;
        } else {
            proof {
                let p = done.push(s@.subrange(start as int, i as int));
                assert(s@.subrange(start as int, i as int).push(s@[i as int]) =~= s@.subrange(
                    start as int,
                    i + 1,
                ));
                assert(p.update(p.len() - 1, p.last().push(s@[i as int])) =~= done.push(
                    s@.subrange(start as int, i + 1),
                ));
            }
        }
        i = i + 1;
    }
    let (lo, hi) = trim_bounds(&s, start, i);
    let ghost piece = s@.subrange(start as int, i as int);
    let ghost prev = strs(out@);
    if lo < hi {
        out.push(substring(&s, text, lo, hi));
        proof {
            assert(strs(out@) =~= prev.push(trim(piece)));
        }
    }
    proof {
        assert(s@.take(i as int) =~= s@);
        assert(done.push(piece).drop_last() =~= done);
        assert(kept(done.push(piece)) =~= kept(done) + if trim(piece).len() > 0 {
            seq![trim(piece)]
        } else {
            Seq::<Seq<char>>::empty()
        });
        if lo >= hi {
            assert(strs(out@) =~= kept(done) + Seq::<Seq<char>>::empty());
        }
    }
    out
}

pub open spec fn pairs_view(v: Seq<(String, String)>) -> Seq<(Seq<char>, Seq<char>)> {
    v.map_values(|p: (String, String)| (p.0@, p.1@))
}

/// Each item cut by `cut`, if every one can be.
pub open spec fn all_cut(items: Seq<Seq<char>>, by_eq: bool) -> Option<Seq<(Seq<char>, Seq<char>)>>
    decreases items.len(),
{
    if items.len() == 0 {
        Some(Seq::empty())
    } else {
        let c = if by_eq {
            split_eq(items.last())
        } else {
            split_ws(items.last())
        };
        match (all_cut(items.drop_last(), by_eq), c) {
            (Some(ps), Some(p)) => Some(ps.push(p)),
            _ => None,
        }
    }
}

/// The filter that the text of a WHERE clause holds.
pub open spec fn filter_spec(text: Seq<char>) -> Option<(Seq<char>, Seq<char>, Seq<char>)> {
    match captures_of(WHERE_PATTERN@, text) {
        Some(g) => match (group(g, 1), group(g, 2), group(g, 3)) {
            (Some(c), Some(o), Some(v)) => Some((c, o, v)),
            _ => None,
        },
        None => None,
    }
}

pub open spec fn filter_view(f: Filter) -> (Seq<char>, Seq<char>, Seq<char>) {
    (f.column@, f.op@, f.value@)
}

/// The optional WHERE clause of a match: absent, or a filter.
pub open spec fn where_spec(w: Option<Seq<char>>) -> Option<Option<(Seq<char>, Seq<char>, Seq<char>)>> {
    match w {
        None => Some(None),
        Some(t) => match filter_spec(t) {
            Some(f) => Some(Some(f)),
            None => None,
        },
    }
}

pub open spec fn opt_filter_view(f: Option<Filter>) -> Option<(Seq<char>, Seq<char>, Seq<char>)> {
    match f {
        Some(f) => Some(filter_view(f)),
        None => None,
    }
}

/// `q` starts with `p`.
pub open spec fn has_prefix(q: Seq<char>, p: Seq<char>) -> bool {
    p.len() <= q.len() && q.take(p.len() as int) == p
}

fn starts_with(q: &str, p: &str) -> (r: bool)
    ensures
        r == has_prefix(q@, p@),
{
    let qs = chars_of(q);
    let ps = chars_of(p);
    if ps.len() > qs.len() {
        return false;
    }
    let mut i: usize = 0;
    while i < ps.len()
        invariant
            qs@ == q@,
            ps@ == p@,
            ps@.len() <= qs@.len(),
            0 <= i <= ps@.len(),
            qs@.take(i as int) == ps@.take(i as int),
        decreases ps@.len() - i,
    {
        if qs[i] != ps[i] {
            proof {
                assert(qs@.take(ps@.len() as int)[i as int] != ps@[i as int]);
            }
            return false;
        }
        i = i + 1;
        assert(qs@.take(i as int) =~= ps@.take(i as int));
    }
    assert(ps@.take(i as int) =~= ps@);
    true
}

fn group_text(g: &Vec<Option<String>>, i: usize) -> (r: Option<String>)
    ensures
        match r {
            Some(s) => group(groups_view(g@), i as int) == Some(s@),
            None => group(groups_view(g@), i as int) is None,
        },
{
    if i < g.len() {
        match &g[i] {
            Some(s) => Some(s.clone()),
            None => None,
        }
    } else {
        None
    }
}

/// Cuts `text` at its first whitespace character (by `by_eq` false) or at
/// its first `=`, trimming both parts (by `by_eq` true).
fn cut(text: &str, by_eq: bool) -> (r: Option<(String, String)>)
    ensures
        match r {
            Some((a, b)) => (if by_eq {
                split_eq(text@)
            } else {
                split_ws(text@)
            }) == Some((a@, b@)),
            None => (if by_eq {
                split_eq(text@)
            } else {
                split_ws(text@)
            }) is None,
        },
{
    let s = chars_of(text);
    let mut i: usize = 0;
    while i < s.len()
        invariant
            s@ == text@,
            0 <= i <= s@.len(),
            forall|j: int| 0 <= j < i ==> if by_eq {
                s@[j] != '='
            } else {
                !is_ws(s@[j])
            },
        decreases s@.len() - i,
    {
        let hit = if by_eq {
            s[i] == '='
        } else {
            is_whitespace(s[i])
        };
        if hit {
            proof {
                if by_eq {
                    let k = choose|k: int| 0 <= k < s@.len() && s@[k] == '=' && forall|j: int| 0 <= j < k ==> s@[j] != '=';
                    if k < i {
                    } else if k > i {
                    }
                    assert(k == i);
                } else {
                    let k = choose|k: int| 0 <= k < s@.len() && is_ws(s@[k]) && forall|j: int| 0 <= j < k ==> !is_ws(s@[j]);
                    if k < i {
                    } else if k > i {
                    }
                    assert(k == i);
                }
            }
            if by_eq {
                let (lo, hi) = trim_bounds(&s, 0, i);
                let (lo2, hi2) = trim_bounds(&s, i + 1, s.len());
                proof {
                    assert(s@.subrange(0, i as int) =~= s@.take(i as int));
                    assert(s@.subrange(i + 1, s@.len() as int) =~= s@.skip(i + 1));
                }
                return Some((substring(&s, text, lo, hi), substring(&s, text, lo2, hi2)));
            } else {
                proof {
                    assert(s@.subrange(0, i as int) =~= s@.take(i as int));
                    assert(s@.subrange(i + 1, s@.len() as int) =~= s@.skip(i + 1));
                }
                return Some((substring(&s, text, 0, i), substring(&s, text, i + 1, s.len())));
            }
        }
        i = i + 1;
    }
    None
}

/// Cuts every item, or gives `None` when one cannot be cut.
fn cut_all(items: &Vec<String>, by_eq: bool) -> (r: Option<Vec<(String, String)>>)
    ensures
        match r {
            Some(v) => all_cut(strs(items@), by_eq) == Some(pairs_view(v@)),
            None => all_cut(strs(items@), by_eq) is None,
        },
{
    let mut out: Vec<(String, String)> = Vec::new();
    let mut k: usize = 0;
    while k < items.len()
        invariant
            0 <= k <= items@.len(),
            all_cut(strs(items@).take(k as int), by_eq) == Some(pairs_view(out@)),
        decreases items@.len() - k,
    {
        proof {
            assert(strs(items@).take(k + 1).drop_last() =~= strs(items@).take(k as int));
            assert(strs(items@).take(k + 1).last() == items@[k as int]@);
        }
        match cut(items[k].as_str(), by_eq) {
            Some(pair) => {
                let ghost prev = pairs_view(out@);
                let ghost pv = (pair.0@, pair.1@);
                out.push(pair);
                proof {
                    assert(pairs_view(out@) =~= prev.push(pv));
                }
            },
            None => {
                proof {
                    lemma_all_cut_stays_none(strs(items@), (k + 1) as int, by_eq);
                }
                return None;
            },
        }
        k = k + 1;
    }
    assert(strs(items@).take(k as int) =~= strs(items@));
    Some(out)
}

proof fn lemma_all_cut_stays_none(items: Seq<Seq<char>>, k: int, by_eq: bool)
    requires
        0 <= k <= items.len(),
        all_cut(items.take(k), by_eq) is None,
    ensures
        all_cut(items, by_eq) is None,
    decreases items.len() - k,
{
    if k < items.len() {
        assert(items.take(k + 1).drop_last() =~= items.take(k));
        lemma_all_cut_stays_none(items, k + 1, by_eq);
    } else {
        assert(items.take(k) =~= items);
    }
}

fn parse_error(msg: &str) -> (e: DBError)
    ensures
        e is Parse,
{
    DBError::Parse(String::from_str(msg))
}

/// The filter that the text of a WHERE clause holds; text that is not
/// `column op value` is a parse error.
pub fn filter_of(text: &str) -> (r: Result<Filter>)
    ensures
        match r {
            Ok(f) => filter_spec(text@) == Some(filter_view(f)),
            Err(e) => filter_spec(text@) is None && e is Parse,
        },
{
    let g = match captures(WHERE_PATTERN, text) {
        Some(g) => g,
        None => {
            let mut m = String::from_str("Error parsing where clause: ");
            m.append(text);
            return Err(DBError::Parse(m));
        },
    };
    match (group_text(&g, 1), group_text(&g, 2), group_text(&g, 3)) {
        (Some(column), Some(op), Some(value)) => Ok(Filter { column, op, value }),
        _ => Err(parse_error("Error parsing where clause")),
    }
}

fn where_of(g: &Vec<Option<String>>, i: usize) -> (r: Result<Option<Filter>>)
    ensures
        match r {
            Ok(f) => where_spec(group(groups_view(g@), i as int)) == Some(opt_filter_view(f)),
            Err(e) => where_spec(group(groups_view(g@), i as int)) is None && e is Parse,
        },
{
    match group_text(g, i) {
        None => Ok(None),
        Some(text) => {
            let f = filter_of(text.as_str())?;
            Ok(Some(f))
        },
    }
}

/// What a CREATE TABLE statement names: the table, and each column's name
/// and type name (the text after the first whitespace of its declaration).
pub open spec fn create_spec(q: Seq<char>) -> Option<(Seq<char>, Seq<(Seq<char>, Seq<char>)>)> {
    match captures_of(CREATE_PATTERN@, q) {
        Some(g) => match (group(g, 1), group(g, 2), group(g, 3)) {
            (Some(t), Some(d), Some(l)) => match all_cut(list_of(d, l), false) {
                Some(cols) => Some((t, cols)),
                None => None,
            },
            _ => None,
        },
        None => None,
    }
}

pub open spec fn drop_spec(q: Seq<char>) -> Option<Seq<char>> {
    match captures_of(DROP_PATTERN@, q) {
        Some(g) => group(g, 1),
        None => None,
    }
}

pub open spec fn insert_spec(q: Seq<char>) -> Option<(Seq<char>, Seq<Seq<char>>)> {
    match captures_of(INSERT_PATTERN@, q) {
        Some(g) => match (group(g, 1), group(g, 2), group(g, 3)) {
            (Some(t), Some(v), Some(l)) => Some((t, list_of(v, l))),
            _ => None,
        },
        None => None,
    }
}

/// What a SELECT names: the table, the columns (`None` for `*`), the filter.
pub open spec fn select_spec(q: Seq<char>) -> Option<
    (Seq<char>, Option<Seq<Seq<char>>>, Option<(Seq<char>, Seq<char>, Seq<char>)>),
> {
    match captures_of(SELECT_PATTERN@, q) {
        Some(g) => match (group(g, 4), where_spec(group(g, 5))) {
            (Some(t), Some(w)) => match group(g, 3) {
                Some(l) => match group(g, 2) {
                    Some(c) => Some((t, Some(list_of(c, l)), w)),
                    None => None,
                },
                None => Some((t, None, w)),
            },
            _ => None,
        },
        None => None,
    }
}

pub open spec fn update_spec(q: Seq<char>) -> Option<
    (Seq<char>, Seq<(Seq<char>, Seq<char>)>, Option<(Seq<char>, Seq<char>, Seq<char>)>),
> {
    match captures_of(UPDATE_PATTERN@, q) {
        Some(g) => match (group(g, 1), group(g, 2), group(g, 3), where_spec(group(g, 4))) {
            (Some(t), Some(u), Some(l), Some(w)) => match all_cut(list_of(u, l), true) {
                Some(a) => Some((t, a, w)),
                None => None,
            },
            _ => None,
        },
        None => None,
    }
}

pub open spec fn delete_spec(q: Seq<char>) -> Option<(Seq<char>, Option<(Seq<char>, Seq<char>, Seq<char>)>)> {
    match captures_of(DELETE_PATTERN@, q) {
        Some(g) => match (group(g, 1), where_spec(group(g, 2))) {
            (Some(t), Some(w)) => Some((t, w)),
            _ => None,
        },
        None => None,
    }
}

/// Which statement `q` is, by its first words, in the order they are tried:
/// 0 CREATE TABLE, 1 DROP TABLE, 2 INSERT, 3 SELECT, 4 UPDATE, 5 DELETE,
/// 6 none of these.
pub open spec fn kind_of(q: Seq<char>) -> int {
    if has_prefix(q, "create table"@) {
        0
    } else if has_prefix(q, "drop table"@) {
        1
    } else if has_prefix(q, "insert into"@) {
        2
    } else if has_prefix(q, "select"@) {
        3
    } else if has_prefix(q, "update"@) {
        4
    } else if has_prefix(q, "delete from"@) {
        5
    } else {
        6
    }
}

/// The position of a statement's kind in `kind_of`'s order.
pub open spec fn statement_kind(st: Statement) -> int {
    match st {
        Statement::CreateTable { .. } => 0,
        Statement::DropTable { .. } => 1,
        Statement::Insert { .. } => 2,
        Statement::Select { .. } => 3,
        Statement::Update { .. } => 4,
        Statement::Delete { .. } => 5,
    }
}

fn list(g: &Vec<Option<String>>, head: usize, last: usize) -> (r: Option<Vec<String>>)
    ensures
        match r {
            Some(v) => (group(groups_view(g@), head as int) matches Some(h) && group(groups_view(g@), last as int)
                matches Some(l) && strs(v@) == list_of(h, l)),
            None => group(groups_view(g@), head as int) is None || group(groups_view(g@), last as int) is None,
        },
{
    match (group_text(g, head), group_text(g, last)) {
        (Some(h), Some(l)) => {
            let mut items = list_items(h.as_str());
            let ghost prev = strs(items@);
            let ghost lv = l@;
            items.push(l);
            proof {
                assert(strs(items@) =~= prev.push(lv));
            }
            Some(items)
        },
        _ => None,
    }
}

/// Cuts a statement into its pieces. Which statement it is goes by its first
/// words; text that does not have the statement's form is a parse error.
pub fn parse(q: &str) -> (r: Result<Statement>)
    ensures
        has_prefix(q@, "create table"@) ==> (r is Ok <==> create_spec(q@) is Some),
        r matches Ok(Statement::CreateTable { table, columns }) ==> create_spec(q@) == Some(
            (table@, pairs_view(columns@)),
        ),
        !has_prefix(q@, "create table"@) && has_prefix(q@, "drop table"@) ==> (r is Ok <==> drop_spec(q@) is Some),
        r matches Ok(Statement::DropTable { table }) ==> drop_spec(q@) == Some(table@),
        !has_prefix(q@, "create table"@) && !has_prefix(q@, "drop table"@) && has_prefix(q@, "insert into"@) ==> (
        r is Ok <==> insert_spec(q@) is Some),
        r matches Ok(Statement::Insert { table, values }) ==> insert_spec(q@) == Some((table@, strs(values@))),
        !has_prefix(q@, "create table"@) && !has_prefix(q@, "drop table"@) && !has_prefix(q@, "insert into"@)
            && has_prefix(q@, "select"@) ==> (r is Ok <==> select_spec(q@) is Some),
        !has_prefix(q@, "create table"@) && !has_prefix(q@, "drop table"@) && !has_prefix(q@, "insert into"@)
            && !has_prefix(q@, "select"@) && has_prefix(q@, "update"@) ==> (r is Ok <==> update_spec(q@) is Some),
        !has_prefix(q@, "create table"@) && !has_prefix(q@, "drop table"@) && !has_prefix(q@, "insert into"@)
            && !has_prefix(q@, "select"@) && !has_prefix(q@, "update"@) && has_prefix(q@, "delete from"@) ==> (
        r is Ok <==> delete_spec(q@) is Some),
        r matches Ok(Statement::Select { table, columns, filter }) ==> select_spec(q@) == Some(
            (
                table@,
                match columns {
                    Some(c) => Some(strs(c@)),
                    None => None,
                },
                opt_filter_view(filter),
            ),
        ),
        r matches Ok(Statement::Update { table, assignments, filter }) ==> update_spec(q@) == Some(
            (table@, pairs_view(assignments@), opt_filter_view(filter)),
        ),
        r matches Ok(Statement::Delete { table, filter }) ==> delete_spec(q@) == Some(
            (table@, opt_filter_view(filter)),
        ),
        !has_prefix(q@, "create table"@) && !has_prefix(q@, "drop table"@) && !has_prefix(q@, "insert into"@)
            && !has_prefix(q@, "select"@) && !has_prefix(q@, "update"@) && !has_prefix(q@, "delete from"@)
            ==> r is Err,
        r matches Err(e) ==> e is Parse,
        r matches Ok(st) ==> statement_kind(st) == kind_of(q@),
{
    if starts_with(q, "create table") {
        let g = match captures(CREATE_PATTERN, q) {
            Some(g) => g,
            None => return Err(parse_error("Error parsing create table statement")),
        };
        let table = match group_text(&g, 1) {
            Some(t) => t,
            None => return Err(parse_error("Error parsing create table statement")),
        };
        let decls = match list(&g, 2, 3) {
            Some(d) => d,
            None => return Err(parse_error("Error parsing create table statement")),
        };
        match cut_all(&decls, false) {
            Some(columns) => Ok(Statement::CreateTable { table, columns }),
            None => Err(parse_error("Error parsing create table statement")),
        }
    } else if starts_with(q, "drop table") {
        let g = match captures(DROP_PATTERN, q) {
            Some(g) => g,
            None => return Err(parse_error("Error parsing drop table statement")),
        };
        match group_text(&g, 1) {
            Some(table) => Ok(Statement::DropTable { table }),
            None => Err(parse_error("Error parsing drop table statement")),
        }
    } else if starts_with(q, "insert into") {
        let g = match captures(INSERT_PATTERN, q) {
            Some(g) => g,
            None => return Err(parse_error("Error parsing insert statement")),
        };
        let table = match group_text(&g, 1) {
            Some(t) => t,
            None => return Err(parse_error("Error parsing insert statement")),
        };
        match list(&g, 2, 3) {
            Some(values) => Ok(Statement::Insert { table, values }),
            None => Err(parse_error("Error parsing insert statement")),
        }
    } else if starts_with(q, "select") {
        let g = match captures(SELECT_PATTERN, q) {
            Some(g) => g,
            None => return Err(parse_error("Error parsing select statement")),
        };
        let table = match group_text(&g, 4) {
            Some(t) => t,
            None => return Err(parse_error("Error parsing select statement")),
        };
        let columns = match group_text(&g, 3) {
            Some(_) => match list(&g, 2, 3) {
                Some(c) => Some(c),
                None => return Err(parse_error("Error parsing select statement")),
            },
            None => None,
        };
        let filter = where_of(&g, 5)?;
        Ok(Statement::Select { table, columns, filter })
    } else if starts_with(q, "update") {
        let g = match captures(UPDATE_PATTERN, q) {
            Some(g) => g,
            None => return Err(parse_error("Error parsing update statement")),
        };
        let table = match group_text(&g, 1) {
            Some(t) => t,
            None => return Err(parse_error("Error parsing update statement")),
        };
        let items = match list(&g, 2, 3) {
            Some(u) => u,
            None => return Err(parse_error("Error parsing update statement")),
        };
        let filter = where_of(&g, 4)?;
        match cut_all(&items, true) {
            Some(assignments) => Ok(Statement::Update { table, assignments, filter }),
            None => Err(parse_error("Error parsing update statement")),
        }
    } else if starts_with(q, "delete from") {
        let g = match captures(DELETE_PATTERN, q) {
            Some(g) => g,
            None => return Err(parse_error("Error parsing delete statement")),
        };
        let table = match group_text(&g, 1) {
            Some(t) => t,
            None => return Err(parse_error("Error parsing delete statement")),
        };
        let filter = where_of(&g, 2)?;
        Ok(Statement::Delete { table, filter })
    } else {
        let mut m = String::from_str("Unknown operation: ");
        m.append(q);
        Err(DBError::Parse(m))
    }
}

} // verus!
