use vstd::prelude::*;
use vstd::string::{StrSliceExecFns, StringExecFns};

verus! {

/// The byte-order mark that may open a line of game script.
pub const BOM: char = '\u{feff}';

/// Unicode white space, as `char::is_whitespace` counts it.
pub open spec fn is_space(c: char) -> bool {
    ('\u{9}' <= c && c <= '\u{d}') || c == ' ' || c == '\u{85}' || c == '\u{a0}' || c == '\u{1680}'
        || ('\u{2000}' <= c && c <= '\u{200a}') || c == '\u{2028}' || c == '\u{2029}' || c
        == '\u{202f}' || c == '\u{205f}' || c == '\u{3000}'
}

/// `s` without its leading byte-order marks.
pub open spec fn strip_marks(s: Seq<char>) -> Seq<char>
    decreases s.len(),
{
    if s.len() > 0 && s[0] == BOM {
        strip_marks(s.skip(1))
    } else {
        s
    }
}

/// `s` without its leading white space.
pub open spec fn trim_start(s: Seq<char>) -> Seq<char>
    decreases s.len(),
{
    if s.len() > 0 && is_space(s[0]) {
        trim_start(s.skip(1))
    } else {
        s
    }
}

pub open spec fn has_prefix(s: Seq<char>, p: Seq<char>) -> bool {
    p.len() <= s.len() && s.subrange(0, p.len() as int) == p
}

pub open spec fn occurs_at(s: Seq<char>, p: Seq<char>, i: int) -> bool {
    0 <= i && i + p.len() <= s.len() && s.subrange(i, i + p.len()) == p
}

pub open spec fn contains(s: Seq<char>, p: Seq<char>) -> bool {
    exists|i: int| #[trigger] occurs_at(s, p, i)
}

/// Position of the last `}` in `s`.
pub open spec fn last_brace(s: Seq<char>) -> Option<int>
    decreases s.len(),
{
    if s.len() == 0 {
        None
    } else if s.last() == '}' {
        Some(s.len() - 1)
    } else {
        last_brace(s.drop_last())
    }
}

/// `s` with `ins` put before its last `}`; `s` itself when it has none.
pub open spec fn insert_before_last_brace(s: Seq<char>, ins: Seq<char>) -> Seq<char> {
    match last_brace(s) {
        None => s,
        Some(k) => s.subrange(0, k) + ins + s.subrange(k, s.len() as int),
    }
}

/// A resource list naming one of the grain farms.
pub open spec fn names_grain_farm(s: Seq<char>) -> bool {
    contains(s, "building_rice_farm"@) || contains(s, "building_wheat_farm"@) || contains(
        s,
        "building_maize_farm"@,
    ) || contains(s, "building_millet_farm"@) || contains(s, "building_rye_farm"@)
}

/// A line of a states file as rewritten: byte-order marks dropped, and a
/// resource list that names a grain farm or livestock ranches extended with
/// fruit orchards or wool farms.
pub open spec fn rewritten_state_line(line: Seq<char>) -> Seq<char> {
    let l = strip_marks(line);
    if has_prefix(trim_start(l), "arable_resources"@) {
        let a = if names_grain_farm(l) {
            insert_before_last_brace(l, "\"bg_fruit_orchard\" "@)
        } else {
            l
        };
        if contains(a, "bg_livestock_ranches"@) {
            insert_before_last_brace(a, "\"bg_wool_farm\" "@)
        } else {
            a
        }
    } else {
        l
    }
}

pub(crate) fn chars_of(s: &str) -> (r: Vec<char>)
    ensures
        r@ == s@,
{
    let n = s.unicode_len();
    let mut r: Vec<char> = Vec::new();
    let mut i: usize = 0;
    while i < n
        invariant
            n == s@.len(),
            0 <= i <= n,
            r@ == s@.subrange(0, i as int),
        decreases n - i,
    {
        let c = s.get_char(i);
        r.push(c);
        i += 1;
        assert(r@ =~= s@.subrange(0, i as int));
    }
    assert(r@ =~= s@);
    r
}

fn space(c: char) -> (r: bool)
    ensures
        r == is_space(c),
{
    ('\u{9}' <= c && c <= '\u{d}') || c == ' ' || c == '\u{85}' || c == '\u{a0}' || c == '\u{1680}'
        || ('\u{2000}' <= c && c <= '\u{200a}') || c == '\u{2028}' || c == '\u{2029}' || c
        == '\u{202f}' || c == '\u{205f}' || c == '\u{3000}'
}

fn occurs_at_exec(s: &Vec<char>, p: &Vec<char>, i: usize) -> (r: bool)
    ensures
        r == occurs_at(s@, p@, i as int),
{
    if i > s.len() || p.len() > s.len() - i {
        return false;
    }
    let mut j: usize = 0;
    while j < p.len()
        invariant
            i + p@.len() <= s@.len(),
            s@.len() <= usize::MAX,
            0 <= j <= p@.len(),
            forall|k: int| 0 <= k < j ==> s@[i + k] == p@[k],
        decreases p@.len() - j,
    {
        if s[i + j] != p[j] {
            assert(s@.subrange(i as int, i + p@.len())[j as int] != p@[j as int]);
            return false;
        }
        j += 1;
    }
    assert(s@.subrange(i as int, i + p@.len()) =~= p@);
    true
}

fn contains_exec(s: &Vec<char>, p: &str) -> (r: bool)
    ensures
        r == contains(s@, p@),
{
    let pc = chars_of(p);
    if pc.len() == 0 {
        assert(occurs_at(s@, p@, 0)) by {
            assert(s@.subrange(0, 0) =~= p@);
        }
        return true;
    }
    let mut i: usize = 0;
    while i < s.len()
        invariant
            pc@ == p@,
            p@.len() > 0,
            0 <= i <= s@.len(),
            forall|k: int| 0 <= k < i ==> !occurs_at(s@, p@, k),
        decreases s@.len() - i,
    {
        if occurs_at_exec(s, &pc, i) {
            return true;
        }
        i += 1;
    }
    assert forall|k: int| !occurs_at(s@, p@, k) by {
        if 0 <= k < i {
        }
    }
    false
}

proof fn lemma_last_brace(s: Seq<char>)
    ensures
        last_brace(s) matches Some(k) ==> 0 <= k < s.len() && s[k] == '}' && forall|j: int|
            k < j < s.len() ==> s[j] != '}',
        last_brace(s) is None ==> forall|j: int| 0 <= j < s.len() ==> s[j] != '}',
    decreases s.len(),
{
    if s.len() > 0 {
        lemma_last_brace(s.drop_last());
        assert forall|j: int| 0 <= j < s.len() - 1 implies s[j] == s.drop_last()[j] by {}
    }
}

/// Puts `ins` before the last `}` of `s`; gives `s` back when it has none.
fn insert_before_last_brace_exec(s: &str, ins: &str) -> (r: String)
    ensures
        r@ == insert_before_last_brace(s@, ins@),
{
    let cs = chars_of(s);
    let n = cs.len();
    let mut k: usize = n;
    while k > 0 && cs[k - 1] != '}'
        invariant
            cs@ == s@,
            n == cs@.len(),
            0 <= k <= n,
            forall|j: int| k <= j < n ==> cs@[j] != '}',
        decreases k,
    {
        k -= 1;
    }
    proof {
        lemma_last_brace(s@);
    }
    if k == 0 {
        assert(last_brace(s@) is None) by {
            if let Some(b) = last_brace(s@) {
                assert(s@[b] == '}');
            }
        }
        return String::from_str(s);
    }
    let ghost b = k - 1;
    assert(last_brace(s@) == Some(b)) by {
        if let Some(x) = last_brace(s@) {
            assert(x >= b);
            assert(x <= b);
        }
    }
    let mut r = String::from_str(s.substring_char(0, k - 1));
    r.append(ins);
    r.append(s.substring_char(k - 1, n));
    r
}

proof fn lemma_strip_step(s: Seq<char>, i: int)
    requires
        0 <= i < s.len(),
    ensures
        s.subrange(i, s.len() as int).skip(1) == s.subrange(i + 1, s.len() as int),
        s.subrange(i, s.len() as int)[0] == s[i],
{
    assert(s.subrange(i, s.len() as int).skip(1) =~= s.subrange(i + 1, s.len() as int));
}

/// Rewrites one line of a states file.
pub fn rewrite_state_line(line: &str) -> (r: String)
    ensures
        r@ == rewritten_state_line(line@),
{
    let cs = chars_of(line);
    let n = cs.len();
    let mut i: usize = 0;
    assert(line@.subrange(0, n as int) =~= line@);
    while i < n && cs[i] == BOM
        invariant
            cs@ == line@,
            n == cs@.len(),
            0 <= i <= n,
            strip_marks(line@.subrange(i as int, n as int)) == strip_marks(line@),
        decreases n - i,
    {
        proof {
            lemma_strip_step(line@, i as int);
        }
        i += 1;
    }
    let l = line.substring_char(i, n);
    assert(strip_marks(l@) == l@) by {
        if i < n {
            assert(l@[0] == line@[i as int]);
        }
    }
    let lc = chars_of(l);
    let m = lc.len();
    let mut j: usize = 0;
    assert(l@.subrange(0, m as int) =~= l@);
    while j < m && space(lc[j])
        invariant
            lc@ == l@,
            m == lc@.len(),
            0 <= j <= m,
            trim_start(l@.subrange(j as int, m as int)) == trim_start(l@),
        decreases m - j,
    {
        proof {
            lemma_strip_step(l@, j as int);
        }
        j += 1;
    }
    let t = l.substring_char(j, m);
    assert(trim_start(t@) == t@) by {
        if j < m {
            assert(t@[0] == l@[j as int]);
        }
    }
    let tc = chars_of(t);
    let key = chars_of("arable_resources");
    proof {
        reveal_strlit("arable_resources");
    }
    let keyed = occurs_at_exec(&tc, &key, 0);
    assert(keyed == has_prefix(t@, "arable_resources"@));
    if !keyed {
        return String::from_str(l);
    }
    let grain = contains_exec(&lc, "building_rice_farm") || contains_exec(&lc, "building_wheat_farm")
        || contains_exec(&lc, "building_maize_farm") || contains_exec(&lc, "building_millet_farm")
        || contains_exec(&lc, "building_rye_farm");
    let a = if grain {
        insert_before_last_brace_exec(l, "\"bg_fruit_orchard\" ")
    } else {
        String::from_str(l)
    };
    let ac = chars_of(a.as_str());
    if contains_exec(&ac, "bg_livestock_ranches") {
        insert_before_last_brace_exec(a.as_str(), "\"bg_wool_farm\" ")
    } else {
        a
    }
}

/// A states file left out of the rewrite: its name stem holds `99_seas`.
pub fn is_skipped_states_file(stem: &str) -> (r: bool)
    ensures
        r == contains(stem@, "99_seas"@),
{
    let cs = chars_of(stem);
    contains_exec(&cs, "99_seas")
}

} // verus!
