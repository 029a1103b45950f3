//! Parsing of configuration text into ordered key/value pairs.
//!
//! Per line: everything from the first `#` on is a comment and discarded;
//! a line without `=` yields no entry; otherwise the line is split at the
//! first `=` and both sides are trimmed of ASCII whitespace.

use vstd::prelude::*;

verus! {

/// ASCII whitespace, as trimmed from the ends of keys and values.
pub open spec fn is_space(c: char) -> bool {
    c == ' ' || c == '\t' || c == '\r' || c == '\n' || c == '\x0c'
}

/// Index of the first occurrence of `target` in `s`, or `s.len()` when absent.
pub open spec fn find_char(s: Seq<char>, target: char) -> nat
    decreases s.len(),
{
    if s.len() == 0 {
        0
    } else if s[0] == target {
        0
    } else {
        (1 + find_char(s.drop_first(), target)) as nat
    }
}

/// `find_char` points at the first occurrence: nothing before it matches,
/// and it matches unless it is the length (no occurrence at all).
pub proof fn lemma_find_char(s: Seq<char>, target: char)
    ensures
        find_char(s, target) <= s.len(),
        forall|i: int| 0 <= i < find_char(s, target) ==> s[i] != target,
        find_char(s, target) < s.len() ==> s[find_char(s, target) as int] == target,
    decreases s.len(),
{
    if s.len() == 0 {
    } else if s[0] == target {
    } else {
        lemma_find_char(s.drop_first(), target);
        assert forall|i: int| 0 <= i < find_char(s, target) implies s[i] != target by {
            if i > 0 {
                assert(s.drop_first()[i - 1] != target);
            }
        }
    }
}

/// Any index with the first-occurrence properties is `find_char`.
pub proof fn lemma_find_char_is(s: Seq<char>, target: char, r: int)
    requires
        0 <= r <= s.len(),
        forall|i: int| 0 <= i < r ==> s[i] != target,
        r < s.len() ==> s[r] == target,
    ensures
        find_char(s, target) == r,
{
    lemma_find_char(s, target);
    let f = find_char(s, target) as int;
    if f < r {
        assert(s[f] != target);
    } else if r < f {
        assert(s[r] != target);
    }
}

/// Number of leading ASCII whitespace characters of `s`.
pub open spec fn space_prefix_len(s: Seq<char>) -> nat
    decreases s.len(),
{
    if s.len() == 0 {
        0
    } else if is_space(s[0]) {
        (1 + space_prefix_len(s.drop_first())) as nat
    } else {
        0
    }
}

/// Number of trailing ASCII whitespace characters of `s`.
pub open spec fn space_suffix_len(s: Seq<char>) -> nat
    decreases s.len(),
{
    if s.len() == 0 {
        0
    } else if is_space(s.last()) {
        (1 + space_suffix_len(s.drop_last())) as nat
    } else {
        0
    }
}

/// The whitespace prefix is whitespace throughout and maximal.
pub proof fn lemma_space_prefix(s: Seq<char>)
    ensures
        space_prefix_len(s) <= s.len(),
        forall|i: int| 0 <= i < space_prefix_len(s) ==> is_space(s[i]),
        space_prefix_len(s) < s.len() ==> !is_space(s[space_prefix_len(s) as int]),
    decreases s.len(),
{
    if s.len() == 0 {
    } else if is_space(s[0]) {
        lemma_space_prefix(s.drop_first());
        assert forall|i: int| 0 <= i < space_prefix_len(s) implies is_space(s[i]) by {
            if i > 0 {
                assert(is_space(s.drop_first()[i - 1]));
            }
        }
    } else {
    }
}

/// Any count with the properties of the whitespace prefix is that prefix.
pub proof fn lemma_space_prefix_is(s: Seq<char>, a: int)
    requires
        0 <= a <= s.len(),
        forall|i: int| 0 <= i < a ==> is_space(s[i]),
        a < s.len() ==> !is_space(s[a]),
    ensures
        space_prefix_len(s) == a,
{
    lemma_space_prefix(s);
    let f = space_prefix_len(s) as int;
    if f < a {
        assert(is_space(s[f]));
    } else if a < f {
        assert(is_space(s[a]));
    }
}

/// The whitespace suffix is whitespace throughout and maximal.
pub proof fn lemma_space_suffix(s: Seq<char>)
    ensures
        space_suffix_len(s) <= s.len(),
        forall|i: int| s.len() - space_suffix_len(s) <= i < s.len() ==> is_space(s[i]),
        space_suffix_len(s) < s.len() ==> !is_space(
            s[s.len() - space_suffix_len(s) - 1],
        ),
    decreases s.len(),
{
    if s.len() == 0 {
    } else if is_space(s.last()) {
        lemma_space_suffix(s.drop_last());
        assert forall|i: int| s.len() - space_suffix_len(s) <= i < s.len() implies is_space(
            s[i],
        ) by {
            if i < s.len() - 1 {
                assert(is_space(s.drop_last()[i]));
            }
        }
    } else {
    }
}

/// Any count with the properties of the whitespace suffix is that suffix.
pub proof fn lemma_space_suffix_is(s: Seq<char>, b: int)
    requires
        0 <= b <= s.len(),
        forall|i: int| s.len() - b <= i < s.len() ==> is_space(s[i]),
        b < s.len() ==> !is_space(s[s.len() - b - 1]),
    ensures
        space_suffix_len(s) == b,
{
    lemma_space_suffix(s);
    let f = space_suffix_len(s) as int;
    if f < b {
        assert(is_space(s[s.len() - f - 1]));
    } else if b < f {
        assert(is_space(s[s.len() - b - 1]));
    }
}

/// `s` with leading and trailing ASCII whitespace removed.
pub open spec fn trimmed(s: Seq<char>) -> Seq<char> {
    if space_prefix_len(s) >= s.len() {
        Seq::empty()
    } else {
        s.subrange(space_prefix_len(s) as int, s.len() - space_suffix_len(s))
    }
}

/// The part of a line that precedes its first `#`, if any.
pub open spec fn strip_comment(l: Seq<char>) -> Seq<char> {
    l.take(find_char(l, '#') as int)
}

/// One line's contribution: after comment stripping, a line without `=`
/// yields nothing; otherwise the first `=` splits it into a trimmed key
/// and a trimmed value.
pub open spec fn parse_line(l: Seq<char>) -> Option<(Seq<char>, Seq<char>)> {
    let c = strip_comment(l);
    let e = find_char(c, '=');
    if e >= c.len() {
        None
    } else {
        Some((trimmed(c.take(e as int)), trimmed(c.skip(e as int + 1))))
    }
}

/// One line's entries as a sequence: empty, or a single pair.
pub open spec fn line_entries(l: Seq<char>) -> Seq<(Seq<char>, Seq<char>)> {
    match parse_line(l) {
        None => Seq::empty(),
        Some(p) => seq![p],
    }
}

/// All entries of a whole text, line by line in file order, lines being
/// separated by `'\n'`.
pub open spec fn parse_entries(s: Seq<char>) -> Seq<(Seq<char>, Seq<char>)>
    decreases s.len(),
{
    let n = find_char(s, '\n');
    if n >= s.len() {
        line_entries(s)
    } else {
        line_entries(s.take(n as int)) + parse_entries(s.skip(n as int + 1))
    }
}

/// The views of a sequence of owned string pairs.
pub open spec fn pairs_view(pairs: Seq<(String, String)>) -> Seq<(Seq<char>, Seq<char>)> {
    pairs.map_values(|p: (String, String)| (p.0@, p.1@))
}

fn is_space_char(c: char) -> (r: bool)
    ensures
        r == is_space(c),
{
    c == ' ' || c == '\t' || c == '\r' || c == '\n' || c == '\x0c'
}

/// First index in `[from, to)` at which `s` holds `target`, or `to`.
fn scan_for(s: &str, from: usize, to: usize, target: char) -> (r: usize)
    requires
        from <= to <= s@.len(),
    ensures
        from <= r <= to,
        forall|i: int| from <= i < r ==> s@[i] != target,
        r < to ==> s@[r as int] == target,
{
    let mut i = from;
    while i < to
        invariant
            from <= i <= to <= s@.len(),
            forall|j: int| from <= j < i ==> s@[j] != target,
        decreases to - i,
    {
        if s.get_char(i) == target {
            return i;
        }
        i = i + 1;
    }
    to
}

/// Bounds of `[lo, hi)` with ASCII whitespace removed at both ends:
/// the returned range carries exactly the trimmed part.
fn trim_range(s: &str, lo: usize, hi: usize) -> (r: (usize, usize))
    requires
        lo <= hi <= s@.len(),
    ensures
        lo <= r.0 <= r.1 <= hi,
        s@.subrange(r.0 as int, r.1 as int) == trimmed(s@.subrange(lo as int, hi as int)),
{
    let ghost part = s@.subrange(lo as int, hi as int);
    let mut a = lo;
    while a < hi && is_space_char(s.get_char(a))
        invariant
            lo <= a <= hi <= s@.len(),
            forall|j: int| lo <= j < a ==> is_space(s@[j]),
        decreases hi - a,
    {
        a = a + 1;
    }
    if a == hi {
        proof {
            assert forall|i: int| 0 <= i < part.len() implies is_space(part[i]) by {
                assert(part[i] == s@[lo + i]);
            }
            lemma_space_prefix_is(part, part.len() as int);
            assert(s@.subrange(hi as int, hi as int) =~= trimmed(part));
        }
        return (hi, hi);
    }
    let mut b = hi;
    while b > a && is_space_char(s.get_char(b - 1))
        invariant
            a <= b <= hi <= s@.len(),
            forall|j: int| b <= j < hi ==> is_space(s@[j]),
        decreases b,
    {
        b = b - 1;
    }
    proof {
        assert forall|i: int| 0 <= i < a - lo implies is_space(part[i]) by {
            assert(part[i] == s@[lo + i]);
        }
        assert(part[a - lo] == s@[a as int]);
        lemma_space_prefix_is(part, a - lo);
        assert forall|i: int| part.len() - (hi - b) <= i < part.len() implies is_space(
            part[i],
        ) by {
            assert(part[i] == s@[lo + i]);
        }
        assert(b > a);
        assert(part[b - lo - 1] == s@[b - 1]);
        lemma_space_suffix_is(part, hi - b);
        assert(s@.subrange(a as int, b as int) =~= trimmed(part));
    }
    (a, b)
}

/// Parses configuration text into its ordered key/value pairs, exactly as
/// [`parse_entries`] describes: per line, comments stripped at the first
/// `#`, lines without `=` skipped, the rest split at the first `=` and
/// trimmed on both sides. Duplicate keys are preserved in file order.
pub fn parse_dotconf(content: &str) -> (pairs: Vec<(String, String)>)
    ensures
        pairs_view(pairs@) == parse_entries(content@),
{
    let n = content.unicode_len();
    let mut pairs: Vec<(String, String)> = Vec::new();
    let mut pos: usize = 0;
    proof {
        assert(content@.skip(0) =~= content@);
        assert(pairs_view(pairs@) =~= Seq::<(Seq<char>, Seq<char>)>::empty());
        assert(pairs_view(pairs@) + parse_entries(content@) =~= parse_entries(content@));
    }
    loop
        invariant
            pos <= n,
            n == content@.len(),
            pairs_view(pairs@) + parse_entries(content@.skip(pos as int)) == parse_entries(
                content@,
            ),
        decreases n - pos,
    {
        let ghost rest = content@.skip(pos as int);
        let nl = scan_for(content, pos, n, '\n');
        let hash = scan_for(content, pos, nl, '#');
        let eq = scan_for(content, pos, hash, '=');
        let ghost line = content@.subrange(pos as int, nl as int);
        proof {
            assert forall|i: int| 0 <= i < rest.len() implies rest[i] == content@[pos + i] by {}
            lemma_find_char_is(rest, '\n', nl as int - pos as int);
            lemma_find_char_is(line, '#', hash as int - pos as int);
            assert(strip_comment(line) =~= content@.subrange(pos as int, hash as int));
            lemma_find_char_is(strip_comment(line), '=', eq as int - pos as int);
        }
        let ghost prev = pairs@;
        if eq < hash {
            let (k0, k1) = trim_range(content, pos, eq);
            let (v0, v1) = trim_range(content, eq + 1, hash);
            let key = content.substring_char(k0, k1).to_owned();
            let value = content.substring_char(v0, v1).to_owned();
            proof {
                let c = strip_comment(line);
                assert(c.take(eq as int - pos as int) =~= content@.subrange(
                    pos as int,
                    eq as int,
                ));
                assert(c.skip(eq as int - pos as int + 1) =~= content@.subrange(
                    eq as int + 1,
                    hash as int,
                ));
                assert(parse_line(line) == Some((key@, value@)));
            }
            pairs.push((key, value));
            proof {
                assert(pairs_view(pairs@) =~= pairs_view(prev) + line_entries(line));
            }
        } else {
            proof {
                assert(parse_line(line) is None);
                assert(pairs_view(pairs@) =~= pairs_view(prev) + line_entries(line));
            }
        }
        if nl == n {
            proof {
                assert(rest =~= line);
                assert(parse_entries(rest) == line_entries(line));
            }
            return pairs;
        }
        proof {
            assert(rest.take(nl as int - pos as int) =~= line);
            assert(rest.skip(nl as int - pos as int + 1) =~= content@.skip(nl as int + 1));
            assert(parse_entries(rest) == line_entries(line) + parse_entries(
                content@.skip(nl as int + 1),
            ));
            assert((pairs_view(prev) + line_entries(line)) + parse_entries(
                content@.skip(nl as int + 1),
            ) =~= pairs_view(prev) + (line_entries(line) + parse_entries(
                content@.skip(nl as int + 1),
            )));
        }
        pos = nl + 1;
    }
}

/// Law: a text that is one assignment `KEY = VALUE`, with arbitrary ASCII
/// whitespace on either side of the `=`, parses to exactly the pair
/// `(KEY, VALUE)`, the whitespace stripped from both sides.
pub proof fn lemma_parse_simple_assignment(
    w1: Seq<char>,
    key: Seq<char>,
    w2: Seq<char>,
    w3: Seq<char>,
    value: Seq<char>,
    w4: Seq<char>,
)
    requires
        forall|i: int| 0 <= i < w1.len() ==> is_space(w1[i]) && w1[i] != '\n',
        forall|i: int| 0 <= i < w2.len() ==> is_space(w2[i]) && w2[i] != '\n',
        forall|i: int| 0 <= i < w3.len() ==> is_space(w3[i]) && w3[i] != '\n',
        forall|i: int| 0 <= i < w4.len() ==> is_space(w4[i]) && w4[i] != '\n',
        key.len() > 0,
        !is_space(key.first()),
        !is_space(key.last()),
        forall|i: int| 0 <= i < key.len() ==> key[i] != '=' && key[i] != '#' && key[i] != '\n',
        value.len() > 0,
        !is_space(value.first()),
        !is_space(value.last()),
        forall|i: int| 0 <= i < value.len() ==> value[i] != '#' && value[i] != '\n',
    ensures
        parse_entries(w1 + key + w2 + seq!['='] + w3 + value + w4) == seq![(key, value)],
{
    let l = w1 + key + w2 + seq!['='] + w3 + value + w4;
    let e = w1.len() + key.len() + w2.len();
    assert forall|i: int| 0 <= i < l.len() implies l[i] != '\n' && l[i] != '#' by {
        if i < w1.len() {
            assert(l[i] == w1[i]);
        } else if i < w1.len() + key.len() {
            assert(l[i] == key[i - w1.len()]);
        } else if i < e {
            assert(l[i] == w2[i - w1.len() - key.len()]);
        } else if i == e {
            assert(l[i] == '=');
        } else if i < e + 1 + w3.len() {
            assert(l[i] == w3[i - e - 1]);
        } else if i < e + 1 + w3.len() + value.len() {
            assert(l[i] == value[i - e - 1 - w3.len()]);
        } else {
            assert(l[i] == w4[i - e - 1 - w3.len() - value.len()]);
        }
    }
    lemma_find_char_is(l, '\n', l.len() as int);
    lemma_find_char_is(l, '#', l.len() as int);
    assert(strip_comment(l) =~= l);
    assert forall|i: int| 0 <= i < e implies l[i] != '=' by {
        if i < w1.len() {
            assert(l[i] == w1[i]);
        } else if i < w1.len() + key.len() {
            assert(l[i] == key[i - w1.len()]);
        } else {
            assert(l[i] == w2[i - w1.len() - key.len()]);
        }
    }
    assert(l[e as int] == '=');
    lemma_find_char_is(l, '=', e as int);

    let kpart = l.take(e as int);
    assert(kpart =~= w1 + key + w2);
    assert forall|i: int| 0 <= i < w1.len() implies is_space(kpart[i]) by {
        assert(kpart[i] == w1[i]);
    }
    assert(kpart[w1.len() as int] == key.first());
    lemma_space_prefix_is(kpart, w1.len() as int);
    assert forall|i: int| kpart.len() - w2.len() <= i < kpart.len() implies is_space(
        kpart[i],
    ) by {
        assert(kpart[i] == w2[i - w1.len() - key.len()]);
    }
    assert(kpart[kpart.len() - w2.len() - 1] == key.last());
    lemma_space_suffix_is(kpart, w2.len() as int);
    assert(trimmed(kpart) =~= key);

    let vpart = l.skip(e as int + 1);
    assert(vpart =~= w3 + value + w4);
    assert forall|i: int| 0 <= i < w3.len() implies is_space(vpart[i]) by {
        assert(vpart[i] == w3[i]);
    }
    assert(vpart[w3.len() as int] == value.first());
    lemma_space_prefix_is(vpart, w3.len() as int);
    assert forall|i: int| vpart.len() - w4.len() <= i < vpart.len() implies is_space(
        vpart[i],
    ) by {
        assert(vpart[i] == w4[i - w3.len() - value.len()]);
    }
    assert(vpart[vpart.len() - w4.len() - 1] == value.last());
    lemma_space_suffix_is(vpart, w4.len() as int);
    assert(trimmed(vpart) =~= value);

    assert(parse_line(l) == Some((key, value)));
    assert(parse_entries(l) =~= seq![(key, value)]);
}

/// Law: everything from the first `#` on is excluded from both key and
/// value — a line parses exactly as its prefix before the first `#` does,
/// wherever that `#` stands, before or after any `=`.
pub proof fn lemma_comment_excluded(l: Seq<char>, h: int)
    requires
        0 <= h < l.len(),
        l[h] == '#',
        forall|i: int| 0 <= i < h ==> l[i] != '#',
    ensures
        parse_line(l) == parse_line(l.take(h)),
{
    lemma_find_char_is(l, '#', h);
    lemma_find_char_is(l.take(h), '#', h);
    assert(strip_comment(l) =~= strip_comment(l.take(h)));
}

/// Law: a line without `=` after comment stripping yields no entry.
pub proof fn lemma_no_separator_no_entry(l: Seq<char>)
    requires
        forall|i: int| 0 <= i < strip_comment(l).len() ==> strip_comment(l)[i] != '=',
    ensures
        parse_line(l) is None,
{
    lemma_find_char(l, '#');
    lemma_find_char_is(strip_comment(l), '=', strip_comment(l).len() as int);
}

/// Law: an empty text yields no entries at all.
pub proof fn lemma_empty_text_no_entries()
    ensures
        parse_entries(Seq::<char>::empty()) == Seq::<(Seq<char>, Seq<char>)>::empty(),
{
    let l = Seq::<char>::empty();
    lemma_find_char_is(l, '\n', 0);
    lemma_find_char_is(l, '#', 0);
    assert(strip_comment(l) =~= l);
    lemma_find_char_is(strip_comment(l), '=', 0);
    assert(parse_line(l) is None);
}

} // verus!
