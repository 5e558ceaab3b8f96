//! Character-level helpers shared by the path and text-format modules.
use vstd::prelude::*;

verus! {

/// Appends one character to a `String` (`String::push`).
#[verifier::external_body]
pub(crate) fn push_char(s: &mut String, c: char)
    ensures
        final(s)@ == old(s)@.push(c),
{
    s.push(c);
}

/// The characters of `s`, in order.
pub fn chars_of(s: &str) -> (r: Vec<char>)
    ensures
        r@ == s@,
{
    let mut r: Vec<char> = Vec::new();
    for c in it: s.chars()
        invariant
            r@ == it.seq().take(it.index() as int),
            it.seq() == s@,
    {
        r.push(c);
    }
    r
}


/// A `String` holding exactly the characters of `cs`.
pub fn string_from_chars(cs: &[char]) -> (r: String)
    ensures
        r@ == cs@,
{
    let mut r = String::new();
    let mut i: usize = 0;
    while i < cs.len()
        invariant
            i <= cs@.len(),
            r@ == cs@.take(i as int),
        decreases cs@.len() - i,
    {
        push_char(&mut r, cs[i]);
        i += 1;
        assert(r@ == cs@.take(i as int));
    }
    assert(cs@.take(cs@.len() as int) == cs@);
    r
}

/// Strict lexicographic order on character sequences (by code point), the order in which
/// names of one directory are kept and visited.
pub open spec fn chars_lt(a: Seq<char>, b: Seq<char>) -> bool
    decreases a.len(),
{
    if b.len() == 0 {
        false
    } else if a.len() == 0 {
        true
    } else if a[0] != b[0] {
        (a[0] as int) < (b[0] as int)
    } else {
        chars_lt(a.drop_first(), b.drop_first())
    }
}

pub proof fn lemma_chars_lt_irreflexive(a: Seq<char>)
    ensures
        !chars_lt(a, a),
    decreases a.len(),
{
    if a.len() > 0 {
        lemma_chars_lt_irreflexive(a.drop_first());
    }
}

pub proof fn lemma_chars_lt_trichotomy(a: Seq<char>, b: Seq<char>)
    ensures
        a == b || chars_lt(a, b) || chars_lt(b, a),
        !(chars_lt(a, b) && chars_lt(b, a)),
    decreases a.len(),
{
    if a.len() > 0 && b.len() > 0 {
        if a[0] == b[0] {
            lemma_chars_lt_trichotomy(a.drop_first(), b.drop_first());
            if a.drop_first() == b.drop_first() {
                assert(a == seq![a[0]] + a.drop_first());
                assert(b == seq![b[0]] + b.drop_first());
            }
        }
    } else if a.len() == 0 && b.len() == 0 {
        assert(a == b);
    }
}

pub proof fn lemma_chars_lt_transitive(a: Seq<char>, b: Seq<char>, c: Seq<char>)
    requires
        chars_lt(a, b),
        chars_lt(b, c),
    ensures
        chars_lt(a, c),
    decreases a.len(),
{
    if a.len() > 0 && a[0] == b[0] && b[0] == c[0] {
        lemma_chars_lt_transitive(a.drop_first(), b.drop_first(), c.drop_first());
    }
}

/// The three outcomes of comparing two names.
#[derive(PartialEq, Eq, Structural, Debug, Clone, Copy)]
pub enum Cmp {
    Less,
    Equal,
    Greater,
}

/// Compares two character sequences in the order `chars_lt`.
pub fn compare_chars(a: &[char], b: &[char]) -> (r: Cmp)
    ensures
        r == Cmp::Less <==> chars_lt(a@, b@),
        r == Cmp::Equal <==> a@ == b@,
        r == Cmp::Greater <==> chars_lt(b@, a@),
{
    proof {
        lemma_chars_lt_trichotomy(a@, b@);
    }
    let mut i: usize = 0;
    assert(a@.skip(0) == a@);
    assert(b@.skip(0) == b@);
    while i < a.len() && i < b.len()
        invariant
            i <= a@.len(),
            i <= b@.len(),
            a@.take(i as int) == b@.take(i as int),
            chars_lt(a@, b@) == chars_lt(a@.skip(i as int), b@.skip(i as int)),
            chars_lt(b@, a@) == chars_lt(b@.skip(i as int), a@.skip(i as int)),
        decreases a@.len() - i,
    {
        assert(a@.skip(i as int).drop_first() == a@.skip(i + 1));
        assert(b@.skip(i as int).drop_first() == b@.skip(i + 1));
        if a[i] != b[i] {
            if a[i] < b[i] {
                return Cmp::Less;
            } else {
                return Cmp::Greater;
            }
        }
        i += 1;
        assert(a@.take(i as int) == a@.take(i - 1).push(a@[i - 1]));
        assert(b@.take(i as int) == b@.take(i - 1).push(b@[i - 1]));
    }
    if i < b.len() {
        Cmp::Less
    } else if i < a.len() {
        Cmp::Greater
    } else {
        assert(a@ == a@.take(i as int));
        assert(b@ == b@.take(i as int));
        Cmp::Equal
    }
}


/// The pieces of `s` between its `/` separators (one more piece than there are separators).
pub open spec fn split_slash(s: Seq<char>) -> Seq<Seq<char>>
    decreases s.len(),
{
    if s.len() == 0 {
        seq![Seq::<char>::empty()]
    } else {
        let r = split_slash(s.drop_last());
        if s.last() == '/' {
            r.push(Seq::<char>::empty())
        } else {
            r.update(r.len() - 1, r.last().push(s.last()))
        }
    }
}

pub proof fn lemma_split_slash_len(s: Seq<char>)
    ensures
        split_slash(s).len() >= 1,
    decreases s.len(),
{
    if s.len() > 0 {
        lemma_split_slash_len(s.drop_last());
    }
}

/// The one-character name `.`.
pub open spec fn dot() -> Seq<char> {
    seq!['.']
}

/// The pieces of `raw` that are neither empty nor `.`, in order.
pub open spec fn keep_named(raw: Seq<Seq<char>>) -> Seq<Seq<char>>
    decreases raw.len(),
{
    if raw.len() == 0 {
        Seq::empty()
    } else {
        let r = keep_named(raw.drop_last());
        let p = raw.last();
        if p.len() == 0 || p == dot() {
            r
        } else {
            r.push(p)
        }
    }
}

/// The components of a Unix path text: a leading `/` becomes the root component `/`, a
/// leading `.` is kept, and empty pieces and every other `.` are dropped.
pub open spec fn path_components(s: Seq<char>) -> Seq<Seq<char>> {
    let raw = split_slash(s);
    let head = if s.len() > 0 && s[0] == '/' {
        seq![seq!['/']]
    } else if raw[0].len() == 0 {
        Seq::<Seq<char>>::empty()
    } else {
        seq![raw[0]]
    };
    head + keep_named(raw.drop_first())
}

/// Splits `s` at every `/`.
fn split_at_slashes(s: &[char]) -> (r: Vec<Vec<char>>)
    ensures
        r.deep_view() == split_slash(s@),
{
    let mut done: Vec<Vec<char>> = Vec::new();
    let mut cur: Vec<char> = Vec::new();
    let mut i: usize = 0;
    while i < s.len()
        invariant
            i <= s@.len(),
            done.deep_view().push(cur@) == split_slash(s@.take(i as int)),
        decreases s@.len() - i,
    {
        proof {
            lemma_split_slash_len(s@.take(i as int));
            assert(s@.take(i + 1).drop_last() == s@.take(i as int));
        }
        let ghost before = done.deep_view();
        if s[i] == '/' {
            let ghost cv = cur@;
            done.push(cur);
            cur = Vec::new();
            assert(done.deep_view() =~~= before.push(cv));
        } else {
            cur.push(s[i]);
            assert(done.deep_view() == split_slash(s@.take(i as int)).drop_last());
        }
        i += 1;
        assert(done.deep_view().push(cur@) =~= split_slash(s@.take(i as int)));
    }
    let ghost before = done.deep_view();
    let ghost cv = cur@;
    done.push(cur);
    assert(done.deep_view() =~~= before.push(cv));
    assert(s@.take(i as int) == s@);
    assert(done.deep_view() =~= split_slash(s@));
    done
}

/// The components of the path text `s`, as in `path_components`.
pub fn components_of(s: &str) -> (r: Vec<String>)
    ensures
        r.deep_view() == path_components(s@),
{
    let cs = chars_of(s);
    let raw = split_at_slashes(cs.as_slice());
    proof {
        lemma_split_slash_len(s@);
    }
    let mut out: Vec<String> = Vec::new();
    if cs.len() > 0 && cs[0] == '/' {
        let mut root = String::new();
        push_char(&mut root, '/');
        out.push(root);
        assert(out.deep_view() =~= seq![seq!['/']]);
    } else if raw[0].len() > 0 {
        out.push(string_from_chars(raw[0].as_slice()));
        assert(out.deep_view() =~~= seq![raw.deep_view()[0]]);
    } else {
        assert(out.deep_view() =~= Seq::<Seq<char>>::empty());
    }
    let ghost head = out.deep_view();
    let ghost tail = raw.deep_view().drop_first();
    assert(keep_named(tail.take(0)) == Seq::<Seq<char>>::empty());
    let mut i: usize = 1;
    while i < raw.len()
        invariant
            1 <= i <= raw@.len(),
            tail == raw.deep_view().drop_first(),
            out.deep_view() == head + keep_named(tail.take(i - 1)),
        decreases raw@.len() - i,
    {
        assert(tail.take(i as int).drop_last() == tail.take(i - 1));
        let piece = &raw[i];
        assert(tail.take(i as int).last() =~= piece@);
        let is_dot = piece.len() == 1 && piece[0] == '.';
        let ghost before = out.deep_view();
        if piece.len() > 0 && !is_dot {
            let named = string_from_chars(piece.as_slice());
            out.push(named);
            assert(out.deep_view() =~~= before.push(piece@));
        }
        proof {
            if piece@.len() == 1 && piece@[0] == '.' {
                assert(piece@ == dot());
            } else if piece@.len() == 1 {
                assert(piece@ != dot());
            }
        }
        i += 1;
        assert(out.deep_view() =~= head + keep_named(tail.take(i - 1)));
    }
    assert(tail.take(i - 1) == tail);
    out
}

/// The number of bytes of `c` in UTF-8.
pub open spec fn utf8_len(c: char) -> nat {
    let v = c as u32;
    if v < 0x80 {
        1
    } else if v < 0x800 {
        2
    } else if v < 0x10000 {
        3
    } else {
        4
    }
}

/// The number of bytes of `s` in UTF-8.
pub open spec fn utf8_len_seq(s: Seq<char>) -> nat
    decreases s.len(),
{
    if s.len() == 0 {
        0
    } else {
        utf8_len_seq(s.drop_last()) + utf8_len(s.last())
    }
}

pub proof fn lemma_utf8_len_take(s: Seq<char>, i: int, j: int)
    requires
        0 <= i <= j <= s.len(),
    ensures
        utf8_len_seq(s.take(i)) <= utf8_len_seq(s.take(j)),
    decreases j - i,
{
    if i < j {
        assert(s.take(j).drop_last() == s.take(j - 1));
        lemma_utf8_len_take(s, i, j - 1);
    }
}

/// Counting the bytes of a text from its first character: the first character's bytes,
/// then those of the rest.
pub proof fn lemma_utf8_len_first(s: Seq<char>)
    requires
        s.len() > 0,
    ensures
        utf8_len_seq(s) == utf8_len(s[0]) + utf8_len_seq(s.drop_first()),
    decreases s.len(),
{
    let r = s.drop_first();
    if s.len() > 1 {
        lemma_utf8_len_first(s.drop_last());
        assert(s.drop_last().drop_first() =~= r.drop_last());
        assert(s.drop_last()[0] == s[0]);
        assert(r.last() == s.last());
        assert(utf8_len_seq(r) == utf8_len_seq(r.drop_last()) + utf8_len(r.last()));
        assert(utf8_len_seq(s) == utf8_len_seq(s.drop_last()) + utf8_len(s.last()));
        assert(utf8_len_seq(s.drop_last().drop_first()) == utf8_len_seq(r.drop_last()));
    } else {
        assert(utf8_len_seq(s) == utf8_len_seq(s.drop_last()) + utf8_len(s.last()));
        assert(r.len() == 0);
        assert(s.drop_last().len() == 0);
        assert(s.last() == s[0]);
    }
}

/// The UTF-8 encoding that vstd gives a text has `utf8_len_seq` bytes.
pub proof fn lemma_encode_utf8_len(s: Seq<char>)
    ensures
        vstd::utf8::encode_utf8(s).len() == utf8_len_seq(s),
    decreases s.len(),
{
    if s.len() > 0 {
        lemma_encode_utf8_len(s.drop_first());
        lemma_utf8_len_first(s);
        let c = s[0];
        let v = c as u32;
        assert(vstd::utf8::is_scalar(v)) by {
            vstd::utf8::char_is_scalar(c);
        }
        assert(vstd::utf8::encode_scalar(v).len() == utf8_len(c));
    }
}

/// The length in bytes of `s` (`str::len`, which counts the bytes of its UTF-8 encoding).
pub(crate) fn str_byte_len(s: &str) -> (r: usize)
    ensures
        r == utf8_len_seq(s@),
{
    proof {
        lemma_encode_utf8_len(s@);
    }
    let bytes = s.as_bytes();
    assert(bytes@.len() == utf8_len_seq(s@));
    bytes.len()
}

/// The number of bytes of `c` in UTF-8.
pub fn char_utf8_len(c: char) -> (r: usize)
    ensures
        r == utf8_len(c),
{
    let v = c as u32;
    if v < 0x80 {
        1
    } else if v < 0x800 {
        2
    } else if v < 0x10000 {
        3
    } else {
        4
    }
}

/// Whether `c` has the Unicode property White_Space.
pub open spec fn is_ws(c: char) -> bool {
    let v = c as int;
    (0x9 <= v <= 0xd) || v == 0x20 || v == 0x85 || v == 0xa0 || v == 0x1680 || (0x2000 <= v
        <= 0x200a) || v == 0x2028 || v == 0x2029 || v == 0x202f || v == 0x205f || v == 0x3000
}

/// Whether `c` has the Unicode property White_Space.
pub fn is_ws_char(c: char) -> (r: bool)
    ensures
        r == is_ws(c),
{
    let v = c as u32;
    (0x9 <= v && v <= 0xd) || v == 0x20 || v == 0x85 || v == 0xa0 || v == 0x1680 || (0x2000
        <= v && v <= 0x200a) || v == 0x2028 || v == 0x2029 || v == 0x202f || v == 0x205f || v
        == 0x3000
}

/// The index of the first character of `s` at or after `i` that is not white space (or
/// the length of `s`).
pub open spec fn skip_ws(s: Seq<char>, i: int) -> int
    decreases s.len() - i,
{
    if i >= s.len() {
        s.len() as int
    } else if is_ws(s[i]) {
        skip_ws(s, i + 1)
    } else {
        i
    }
}

/// The end of `s` up to `j` with trailing white space removed.
pub open spec fn drop_ws_back(s: Seq<char>, j: int) -> int
    decreases j,
{
    if j <= 0 {
        0
    } else if is_ws(s[j - 1]) {
        drop_ws_back(s, j - 1)
    } else {
        j
    }
}

/// `s` without its leading and trailing white space (`str::trim`).
pub open spec fn trim_ws(s: Seq<char>) -> Seq<char> {
    let a = skip_ws(s, 0);
    if a >= s.len() {
        Seq::empty()
    } else {
        s.subrange(a, drop_ws_back(s, s.len() as int))
    }
}

pub proof fn lemma_skip_ws(s: Seq<char>, i: int)
    requires
        0 <= i <= s.len(),
    ensures
        i <= skip_ws(s, i) <= s.len(),
        forall|k: int| i <= k < skip_ws(s, i) ==> is_ws(#[trigger] s[k]),
        skip_ws(s, i) < s.len() ==> !is_ws(s[skip_ws(s, i)]),
    decreases s.len() - i,
{
    if i < s.len() && is_ws(s[i]) {
        lemma_skip_ws(s, i + 1);
    }
}

pub proof fn lemma_drop_ws_back(s: Seq<char>, j: int)
    requires
        0 <= j <= s.len(),
    ensures
        0 <= drop_ws_back(s, j) <= j,
        drop_ws_back(s, j) > 0 ==> !is_ws(s[drop_ws_back(s, j) - 1]),
    decreases j,
{
    if j > 0 && is_ws(s[j - 1]) {
        lemma_drop_ws_back(s, j - 1);
    }
}

/// Each of `ps` without leading and trailing white space.
pub open spec fn trim_each(ps: Seq<Seq<char>>) -> Seq<Seq<char>> {
    ps.map_values(|p: Seq<char>| trim_ws(p))
}

/// The characters of `s` between `a` and `e`, without leading and trailing white space.
pub fn trimmed(s: &[char], a: usize, e: usize) -> (r: String)
    requires
        a <= e <= s@.len(),
    ensures
        r@ == trim_ws(s@.subrange(a as int, e as int)),
{
    let ghost t = s@.subrange(a as int, e as int);
    let mut i = a;
    while i < e && is_ws_char(s[i])
        invariant
            a <= i <= e <= s@.len(),
            t == s@.subrange(a as int, e as int),
            skip_ws(t, (i - a) as int) == skip_ws(t, 0),
        decreases e - i,
    {
        assert(t[(i - a) as int] == s@[i as int]);
        i += 1;
    }
    proof {
        if i < e {
            assert(t[(i - a) as int] == s@[i as int]);
        }
        assert(skip_ws(t, (i - a) as int) == (i - a) as int);
    }
    if i == e {
        return String::new();
    }
    let mut j = e;
    while j > i && is_ws_char(s[j - 1])
        invariant
            a <= i < e <= s@.len(),
            i <= j <= e,
            t == s@.subrange(a as int, e as int),
            i < j,
            drop_ws_back(t, (j - a) as int) == drop_ws_back(t, t.len() as int),
            !is_ws(s@[i as int]),
        decreases j,
    {
        assert(t[(j - 1 - a) as int] == s@[j - 1]);
        assert(j - 1 != i);
        j -= 1;
    }
    proof {
        assert(t[(i - a) as int] == s@[i as int]);
        assert(t[(j - 1 - a) as int] == s@[j - 1]);
        assert(drop_ws_back(t, (j - a) as int) == (j - a) as int);
    }
    let mut out = String::new();
    let mut k = i;
    while k < j
        invariant
            a <= i <= k <= j <= e <= s@.len(),
            out@ == s@.subrange(i as int, k as int),
        decreases j - k,
    {
        push_char(&mut out, s[k]);
        k += 1;
        assert(out@ =~= s@.subrange(i as int, k as int));
    }
    assert(t.subrange((i - a) as int, (j - a) as int) =~= s@.subrange(i as int, j as int));
    out
}

/// The pieces of `s` between its occurrences of `c` (one more piece than occurrences).
pub open spec fn split_char(s: Seq<char>, c: char) -> Seq<Seq<char>>
    decreases s.len(),
{
    if s.len() == 0 {
        seq![Seq::<char>::empty()]
    } else {
        let r = split_char(s.drop_last(), c);
        if s.last() == c {
            r.push(Seq::<char>::empty())
        } else {
            r.update(r.len() - 1, r.last().push(s.last()))
        }
    }
}

pub proof fn lemma_split_char_len(s: Seq<char>, c: char)
    ensures
        split_char(s, c).len() >= 1,
    decreases s.len(),
{
    if s.len() > 0 {
        lemma_split_char_len(s.drop_last(), c);
    }
}

/// The positions in `s` between `a` and `e` where the pieces split at `c` end.
pub(crate) fn split_ends(s: &[char], a: usize, e: usize, c: char) -> (r: (Vec<usize>, Vec<usize>))
    requires
        a <= e <= s@.len(),
    ensures
        r.0@.len() == r.1@.len(),
        r.0@.len() == split_char(s@.subrange(a as int, e as int), c).len(),
        forall|k: int|
            0 <= k < r.0@.len() ==> a <= #[trigger] r.0@[k] <= r.1@[k] <= e && s@.subrange(
                r.0@[k] as int,
                r.1@[k] as int,
            ) == split_char(s@.subrange(a as int, e as int), c)[k],
{
    let mut starts: Vec<usize> = Vec::new();
    let mut ends: Vec<usize> = Vec::new();
    let mut cur = a;
    let mut i = a;
    while i < e
        invariant
            a <= cur <= i <= e <= s@.len(),
            starts@.len() == ends@.len(),
            starts@.len() + 1 == split_char(s@.subrange(a as int, i as int), c).len(),
            forall|k: int|
                0 <= k < starts@.len() ==> a <= #[trigger] starts@[k] <= ends@[k] <= i
                    && s@.subrange(starts@[k] as int, ends@[k] as int) == split_char(
                    s@.subrange(a as int, i as int),
                    c,
                )[k],
            s@.subrange(cur as int, i as int) == split_char(s@.subrange(a as int, i as int), c).last(),
        decreases e - i,
    {
        let ghost prev = split_char(s@.subrange(a as int, i as int), c);
        proof {
            lemma_split_char_len(s@.subrange(a as int, i as int), c);
            assert(s@.subrange(a as int, i + 1).drop_last() == s@.subrange(a as int, i as int));
            assert(s@.subrange(a as int, i + 1).last() == s@[i as int]);
        }
        let ghost old_starts = starts@;
        let ghost old_ends = ends@;
        if s[i] == c {
            starts.push(cur);
            ends.push(i);
            cur = i + 1;
            i += 1;
            assert(s@.subrange(cur as int, i as int) =~= Seq::<char>::empty());
            let ghost next = split_char(s@.subrange(a as int, i as int), c);
            assert(next == prev.push(Seq::<char>::empty()));
            assert forall|k: int|
                0 <= k < starts@.len() implies a <= #[trigger] starts@[k] <= ends@[k] <= i
                    && s@.subrange(starts@[k] as int, ends@[k] as int) == next[k] by {
                if k < old_starts.len() {
                    assert(starts@[k] == old_starts[k] && ends@[k] == old_ends[k]);
                }
            }
        } else {
            i += 1;
            assert(s@.subrange(cur as int, i as int) =~= s@.subrange(cur as int, i - 1).push(
                s@[i - 1],
            ));
            let ghost next = split_char(s@.subrange(a as int, i as int), c);
            assert(next == prev.update(prev.len() - 1, prev.last().push(s@[i - 1])));
            assert(starts@ == old_starts && ends@ == old_ends);
            assert forall|k: int|
                0 <= k < starts@.len() implies a <= #[trigger] starts@[k] <= ends@[k] <= i
                    && s@.subrange(starts@[k] as int, ends@[k] as int) == next[k] by {
                assert(next[k] == prev[k]);
            }
        }
    }
    starts.push(cur);
    ends.push(e);
    (starts, ends)
}

/// The pieces of the characters of `s` between `a` and `e` split at `c`, each without
/// leading and trailing white space.
pub fn split_trimmed(s: &[char], a: usize, e: usize, c: char) -> (r: Vec<String>)
    requires
        a <= e <= s@.len(),
    ensures
        r.deep_view() == trim_each(split_char(s@.subrange(a as int, e as int), c)),
{
    let ghost pieces = split_char(s@.subrange(a as int, e as int), c);
    let (starts, ends) = split_ends(s, a, e, c);
    let mut out: Vec<String> = Vec::new();
    let mut k: usize = 0;
    while k < starts.len()
        invariant
            k <= starts@.len() == ends@.len() == pieces.len(),
            forall|j: int|
                0 <= j < starts@.len() ==> a <= #[trigger] starts@[j] <= ends@[j] <= e
                    && s@.subrange(starts@[j] as int, ends@[j] as int) == pieces[j],
            e <= s@.len(),
            out.deep_view() == trim_each(pieces.take(k as int)),
        decreases starts@.len() - k,
    {
        assert(a <= starts@[k as int] <= ends@[k as int] <= e);
        let piece = trimmed(s, starts[k], ends[k]);
        let ghost before = out.deep_view();
        let ghost pv = piece@;
        out.push(piece);
        k += 1;
        assert(out.deep_view() =~= before.push(pv));
        assert(trim_each(pieces.take(k as int)) =~= trim_each(pieces.take(k - 1)).push(
            trim_ws(pieces[k - 1]),
        ));
    }
    assert(pieces.take(k as int) == pieces);
    out
}

/// The decimal digit for `d` (below 10).
pub open spec fn digit_char(d: nat) -> char {
    if d == 0 { '0' } else if d == 1 { '1' } else if d == 2 { '2' } else if d == 3 { '3' } else if d == 4 {
        '4'
    } else if d == 5 { '5' } else if d == 6 { '6' } else if d == 7 { '7' } else if d == 8 { '8' } else {
        '9'
    }
}

/// The decimal digits of `n`, most significant first (`0` for zero).
pub open spec fn decimal(n: nat) -> Seq<char>
    decreases n,
{
    if n < 10 {
        seq![digit_char(n)]
    } else {
        decimal(n / 10).push(digit_char(n % 10))
    }
}

/// The decimal digit for `d`.
fn digit_of(d: usize) -> (r: char)
    requires
        d < 10,
    ensures
        r == digit_char(d as nat),
{
    if d == 0 { '0' } else if d == 1 { '1' } else if d == 2 { '2' } else if d == 3 { '3' } else if d == 4 {
        '4'
    } else if d == 5 { '5' } else if d == 6 { '6' } else if d == 7 { '7' } else if d == 8 { '8' } else {
        '9'
    }
}

/// Appends the decimal digits of `n`.
pub fn push_decimal(text: &mut String, n: usize)
    ensures
        final(text)@ == old(text)@ + decimal(n as nat),
    decreases n,
{
    if n < 10 {
        push_char(text, digit_of(n));
        assert(decimal(n as nat) =~= seq![digit_char(n as nat)]);
    } else {
        push_decimal(text, n / 10);
        push_char(text, digit_of(n % 10));
        assert(decimal(n as nat) =~= decimal((n / 10) as nat).push(digit_char((n % 10) as nat)));
    }
}

} // verus!
