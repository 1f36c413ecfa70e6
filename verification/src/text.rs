//! Character-sequence primitives, each specified over `Seq<char>`:
//! white space and trimming, searching, removal of a pattern, splitting and
//! joining.

use vstd::prelude::*;
use vstd::string::StringExecFns;

verus! {

/// The Unicode `White_Space` property, which `char::is_whitespace` and
/// `str::trim` go by.
pub open spec fn is_white_space(c: char) -> bool {
    let v = c as u32;
    ||| 0x09 <= v <= 0x0D
    ||| v == 0x20
    ||| v == 0x85
    ||| v == 0xA0
    ||| v == 0x1680
    ||| 0x2000 <= v <= 0x200A
    ||| v == 0x2028
    ||| v == 0x2029
    ||| v == 0x202F
    ||| v == 0x205F
    ||| v == 0x3000
}

/// Whether `c` is white space.
pub fn is_white_space_char(c: char) -> (r: bool)
    ensures
        r == is_white_space(c),
{
    let v = c as u32;
    (0x09 <= v && v <= 0x0D) || v == 0x20 || v == 0x85 || v == 0xA0 || v == 0x1680 || (0x2000
        <= v && v <= 0x200A) || v == 0x2028 || v == 0x2029 || v == 0x202F || v == 0x205F || v
        == 0x3000
}

/// The characters of `s`, in order.
pub fn chars_of(s: &str) -> (v: Vec<char>)
    ensures
        v@ == s@,
{
    broadcast use vstd::string::axiom_spec_iter;

    let mut v: Vec<char> = Vec::new();
    for c in it: s.chars()
        invariant
            it.seq() == s@,
            v@ == s@.take(it.index() as int),
    {
        v.push(c);
        proof {
            assert(s@.take(it.index() + 1) =~= s@.take(it.index() as int).push(c));
        }
    }
    proof {
        assert(s@.take(s@.len() as int) =~= s@);
    }
    v
}

/// `String::push` of std, which appends one character. Claimed: the string
/// afterwards is the one before with `ch` at its end.
pub assume_specification[ String::push ](s: &mut String, ch: char)
    ensures
        final(s)@ == old(s)@.push(ch),
;

/// The string made of the characters of `v`.
pub fn string_of(v: &[char]) -> (s: String)
    ensures
        s@ == v@,
{
    let mut s = String::new();
    let mut i: usize = 0;
    while i < v.len()
        invariant
            i <= v.len(),
            s@ == v@.take(i as int),
        decreases v.len() - i,
    {
        s.push(v[i]);
        i += 1;
        proof {
            assert(v@.take(i as int) =~= v@.take(i - 1).push(v@[i - 1]));
        }
    }
    proof {
        assert(v@.take(v.len() as int) =~= v@);
    }
    s
}


/// `s` without its leading white space, as `str::trim_start` leaves it.
pub open spec fn trim_start(s: Seq<char>) -> Seq<char>
    decreases s.len(),
{
    if s.len() > 0 && is_white_space(s[0]) {
        trim_start(s.drop_first())
    } else {
        s
    }
}

/// `s` without its trailing white space, as `str::trim_end` leaves it.
pub open spec fn trim_end(s: Seq<char>) -> Seq<char>
    decreases s.len(),
{
    if s.len() > 0 && is_white_space(s.last()) {
        trim_end(s.drop_last())
    } else {
        s
    }
}

/// `s` without white space at either end, as `str::trim` leaves it.
pub open spec fn trim(s: Seq<char>) -> Seq<char> {
    trim_end(trim_start(s))
}

/// Dropping `k` leading white-space characters, up to the first one that is
/// not, is what `trim_start` does.
pub proof fn lemma_trim_start_skip(s: Seq<char>, k: int)
    requires
        0 <= k <= s.len(),
        forall|i: int| 0 <= i < k ==> is_white_space(#[trigger] s[i]),
        k == s.len() || !is_white_space(s[k]),
    ensures
        trim_start(s) == s.skip(k),
    decreases k,
{
    if k == 0 {
        assert(s.skip(0) =~= s);
    } else {
        let t = s.drop_first();
        assert forall|i: int| 0 <= i < k - 1 implies is_white_space(#[trigger] t[i]) by {
            assert(t[i] == s[i + 1]);
        }
        assert(is_white_space(s[0]));
        lemma_trim_start_skip(t, k - 1);
        assert(t.skip(k - 1) =~= s.skip(k));
    }
}

/// Keeping the first `k` characters, when all after them are white space and
/// the last kept one is not, is what `trim_end` does.
pub proof fn lemma_trim_end_take(s: Seq<char>, k: int)
    requires
        0 <= k <= s.len(),
        forall|i: int| k <= i < s.len() ==> is_white_space(#[trigger] s[i]),
        k == 0 || !is_white_space(s[k - 1]),
    ensures
        trim_end(s) == s.take(k),
    decreases s.len() - k,
{
    if k == s.len() {
        assert(s.take(k) =~= s);
    } else {
        let t = s.drop_last();
        assert(is_white_space(s[s.len() - 1]));
        assert forall|i: int| k <= i < t.len() implies is_white_space(#[trigger] t[i]) by {
            assert(t[i] == s[i]);
        }
        lemma_trim_end_take(t, k);
        assert(t.take(k) =~= s.take(k));
    }
}

/// The bounds of the trimmed part of `v[lo..hi]`.
pub fn trim_bounds(v: &Vec<char>, lo: usize, hi: usize) -> (r: (usize, usize))
    requires
        lo <= hi <= v.len(),
    ensures
        lo <= r.0 <= r.1 <= hi,
        v@.subrange(r.0 as int, r.1 as int) == trim(v@.subrange(lo as int, hi as int)),
{
    let mut a = lo;
    while a < hi && is_white_space_char(v[a])
        invariant
            lo <= a <= hi <= v.len(),
            forall|i: int| lo <= i < a ==> is_white_space(#[trigger] v@[i]),
        decreases hi - a,
    {
        a += 1;
    }
    let mut b = hi;
    while b > a && is_white_space_char(v[b - 1])
        invariant
            lo <= a <= b <= hi <= v.len(),
            forall|i: int| b <= i < hi ==> is_white_space(#[trigger] v@[i]),
        decreases b - a,
    {
        b -= 1;
    }
    proof {
        let t = v@.subrange(lo as int, hi as int);
        assert forall|i: int| 0 <= i < a - lo implies is_white_space(#[trigger] t[i]) by {
            assert(t[i] == v@[lo + i]);
        }
        lemma_trim_start_skip(t, a - lo);
        assert(t.skip(a - lo) =~= v@.subrange(a as int, hi as int));
        let u = v@.subrange(a as int, hi as int);
        assert forall|i: int| b - a <= i < u.len() implies is_white_space(#[trigger] u[i]) by {
            assert(u[i] == v@[a + i]);
        }
        lemma_trim_end_take(u, b - a);
        assert(u.take(b - a) =~= v@.subrange(a as int, b as int));
    }
    (a, b)
}

/// A copy of `v[lo..hi]`.
pub fn slice_of(v: &Vec<char>, lo: usize, hi: usize) -> (r: Vec<char>)
    requires
        lo <= hi <= v.len(),
    ensures
        r@ == v@.subrange(lo as int, hi as int),
{
    let mut r: Vec<char> = Vec::new();
    let mut i = lo;
    while i < hi
        invariant
            lo <= i <= hi <= v.len(),
            r@ == v@.subrange(lo as int, i as int),
        decreases hi - i,
    {
        r.push(v[i]);
        i += 1;
        proof {
            assert(r@ =~= v@.subrange(lo as int, i as int));
        }
    }
    r
}

/// `v[lo..hi]` trimmed, as a new vector.
pub fn trimmed(v: &Vec<char>, lo: usize, hi: usize) -> (r: Vec<char>)
    requires
        lo <= hi <= v.len(),
    ensures
        r@ == trim(v@.subrange(lo as int, hi as int)),
{
    let (a, b) = trim_bounds(v, lo, hi);
    slice_of(v, a, b)
}


/// `pat` occurs in `s` at position `i`.
pub open spec fn matches_at(s: Seq<char>, pat: Seq<char>, i: int) -> bool {
    0 <= i && i + pat.len() <= s.len() && s.subrange(i, i + pat.len()) == pat
}

/// The first position at or after `i` where `pat` occurs in `s`.
pub open spec fn find_from(s: Seq<char>, pat: Seq<char>, i: int) -> Option<int>
    decreases s.len() + 1 - i,
{
    if i < 0 || i + pat.len() > s.len() {
        None
    } else if matches_at(s, pat, i) {
        Some(i)
    } else {
        find_from(s, pat, i + 1)
    }
}

/// The first position where `pat` occurs in `s`, as `str::find` gives it
/// (counted in characters).
pub open spec fn find(s: Seq<char>, pat: Seq<char>) -> Option<int> {
    find_from(s, pat, 0)
}

/// `pat` occurs somewhere in `s`.
pub open spec fn contains(s: Seq<char>, pat: Seq<char>) -> bool {
    exists|i: int| matches_at(s, pat, i)
}

/// `s` begins with `pat`.
pub open spec fn starts_with(s: Seq<char>, pat: Seq<char>) -> bool {
    pat.len() <= s.len() && s.take(pat.len() as int) == pat
}

/// `s` ends with `pat`.
pub open spec fn ends_with(s: Seq<char>, pat: Seq<char>) -> bool {
    pat.len() <= s.len() && s.skip(s.len() - pat.len()) == pat
}

/// `find_from` gives the first occurrence at or after `i`, and none when there
/// is none.
pub proof fn lemma_find_from(s: Seq<char>, pat: Seq<char>, i: int)
    requires
        0 <= i,
    ensures
        find_from(s, pat, i) matches Some(j) ==> i <= j && matches_at(s, pat, j) && forall|
            k: int,
        | i <= k < j ==> !matches_at(s, pat, k),
        find_from(s, pat, i) is None ==> forall|k: int| i <= k ==> !matches_at(s, pat, k),
    decreases s.len() + 1 - i,
{
    if i + pat.len() > s.len() {
    } else if matches_at(s, pat, i) {
    } else {
        lemma_find_from(s, pat, i + 1);
        assert forall|k: int| i <= k < i + 1 implies !matches_at(s, pat, k) by {}
    }
}

/// `find` is the first occurrence; it is absent exactly when `pat` does not
/// occur.
pub proof fn lemma_find(s: Seq<char>, pat: Seq<char>)
    ensures
        find(s, pat) matches Some(j) ==> matches_at(s, pat, j) && forall|k: int|
            0 <= k < j ==> !matches_at(s, pat, k),
        find(s, pat) is None <==> !contains(s, pat),
{
    lemma_find_from(s, pat, 0);
    if find(s, pat) is Some {
        assert(matches_at(s, pat, find(s, pat)->0));
    }
}

/// Whether `pat` occurs in `v` at position `i`.
pub fn matches_at_exec(v: &Vec<char>, pat: &Vec<char>, i: usize) -> (r: bool)
    ensures
        r == matches_at(v@, pat@, i as int),
{
    if i > v.len() || pat.len() > v.len() - i {
        return false;
    }
    let mut k: usize = 0;
    while k < pat.len()
        invariant
            i + pat.len() <= v.len(),
            k <= pat.len(),
            forall|j: int| 0 <= j < k ==> v@[i + j] == pat@[j],
        decreases pat.len() - k,
    {
        if v[i + k] != pat[k] {
            proof {
                assert(v@.subrange(i as int, i + pat.len())[k as int] != pat@[k as int]);
            }
            return false;
        }
        k += 1;
    }
    proof {
        assert(v@.subrange(i as int, i + pat.len()) =~= pat@);
    }
    true
}

/// The first position where `pat` occurs in `v`.
pub fn find_exec(v: &Vec<char>, pat: &Vec<char>) -> (r: Option<usize>)
    ensures
        r matches Some(i) ==> find(v@, pat@) == Some(i as int),
        r is None ==> find(v@, pat@) is None,
{
    if pat.len() > v.len() {
        return None;
    }
    if pat.len() == 0 {
        proof {
            assert(v@.subrange(0, 0) =~= pat@);
        }
        return Some(0);
    }
    let mut i: usize = 0;
    while i <= v.len() - pat.len()
        invariant
            0 < pat.len() <= v.len(),
            i <= v.len() - pat.len() + 1,
            find(v@, pat@) == find_from(v@, pat@, i as int),
        decreases v.len() - pat.len() + 1 - i,
    {
        if matches_at_exec(v, pat, i) {
            return Some(i);
        }
        i += 1;
    }
    None
}

/// Whether `pat` occurs anywhere in `v`.
pub fn contains_exec(v: &Vec<char>, pat: &Vec<char>) -> (r: bool)
    ensures
        r == contains(v@, pat@),
{
    proof {
        lemma_find(v@, pat@);
    }
    find_exec(v, pat).is_some()
}

/// Whether `v` begins with `pat`.
pub fn starts_with_exec(v: &Vec<char>, pat: &Vec<char>) -> (r: bool)
    ensures
        r == starts_with(v@, pat@),
{
    let r = matches_at_exec(v, pat, 0);
    proof {
        if pat.len() <= v.len() {
            assert(v@.take(pat.len() as int) =~= v@.subrange(0, pat.len() as int));
        }
    }
    r
}

/// Whether `v` ends with `pat`.
pub fn ends_with_exec(v: &Vec<char>, pat: &Vec<char>) -> (r: bool)
    ensures
        r == ends_with(v@, pat@),
{
    if pat.len() > v.len() {
        return false;
    }
    let r = matches_at_exec(v, pat, v.len() - pat.len());
    proof {
        assert(v@.skip(v.len() - pat.len()) =~= v@.subrange(
            v.len() - pat.len(),
            v.len() as int,
        ));
    }
    r
}


/// `s` with every occurrence of `pat` taken out, scanning from the left and
/// never letting two occurrences overlap, as `str::replace(pat, "")` does.
pub open spec fn remove_all(s: Seq<char>, pat: Seq<char>) -> Seq<char>
    decreases s.len(),
{
    if pat.len() == 0 || s.len() < pat.len() {
        s
    } else if s.take(pat.len() as int) == pat {
        remove_all(s.skip(pat.len() as int), pat)
    } else {
        seq![s[0]] + remove_all(s.drop_first(), pat)
    }
}

/// `v` with every occurrence of `pat` taken out.
pub fn remove_all_exec(v: &Vec<char>, pat: &Vec<char>) -> (r: Vec<char>)
    ensures
        r@ == remove_all(v@, pat@),
{
    if pat.len() == 0 {
        return slice_of(v, 0, v.len());
    }
    let mut r: Vec<char> = Vec::new();
    let mut i: usize = 0;
    proof {
        assert(v@.skip(0) =~= v@);
    }
    while i < v.len()
        invariant
            pat.len() > 0,
            i <= v.len(),
            r@ + remove_all(v@.skip(i as int), pat@) == remove_all(v@, pat@),
        decreases v.len() - i,
    {
        let ghost rest = v@.skip(i as int);
        if matches_at_exec(v, pat, i) {
            proof {
                assert(rest.take(pat.len() as int) =~= v@.subrange(i as int, i + pat.len()));
                assert(rest.skip(pat.len() as int) =~= v@.skip(i + pat.len()));
            }
            i += pat.len();
        } else {
            proof {
                if rest.len() >= pat.len() {
                    assert(rest.take(pat.len() as int) =~= v@.subrange(i as int, i + pat.len()));
                    assert(rest.drop_first() =~= v@.skip(i + 1));
                } else {
                    assert(remove_all(rest, pat@) == rest);
                    assert(rest =~= seq![v@[i as int]] + v@.skip(i + 1));
                    assert(v@.skip(i + 1).len() < pat.len());
                    assert(remove_all(v@.skip(i + 1), pat@) == v@.skip(i + 1));
                }
                assert((r@.push(v@[i as int])) + remove_all(v@.skip(i + 1), pat@) =~= r@ + (seq![
                    v@[i as int],
                ] + remove_all(v@.skip(i + 1), pat@)));
            }
            r.push(v[i]);
            i += 1;
        }
    }
    proof {
        assert(v@.skip(i as int) =~= Seq::<char>::empty());
        assert(r@ + Seq::<char>::empty() =~= r@);
    }
    r
}

/// The number of bytes of the UTF-8 encoding of `c`.
pub fn utf8_width(c: char) -> (n: usize)
    ensures
        n == vstd::utf8::encode_scalar(c as u32).len(),
{
    let u = c as u32;
    if u <= 0x7F {
        1
    } else if u <= 0x7FF {
        2
    } else if u <= 0xFFFF {
        3
    } else {
        4
    }
}

/// Whether the UTF-8 encoding of `v` takes more than two bytes, which is
/// what `str::len() > 2` asks.
pub fn utf8_longer_than_two(v: &Vec<char>) -> (r: bool)
    ensures
        r == (vstd::utf8::encode_utf8(v@).len() > 2),
{
    let mut acc: usize = 0;
    let mut i: usize = 0;
    proof {
        assert(v@.skip(0) =~= v@);
    }
    while i < v.len() && acc <= 2
        invariant
            i <= v.len(),
            acc <= 6,
            vstd::utf8::encode_utf8(v@).len() == acc + vstd::utf8::encode_utf8(
                v@.skip(i as int),
            ).len(),
        decreases v.len() - i,
    {
        proof {
            assert(v@.skip(i as int).drop_first() =~= v@.skip(i + 1));
            assert(v@.skip(i as int)[0] == v@[i as int]);
        }
        acc += utf8_width(v[i]);
        i += 1;
    }
    proof {
        if i == v.len() {
            assert(v@.skip(i as int) =~= Seq::<char>::empty());
        }
    }
    acc > 2
}


/// The character sequences that a list of strings holds.
pub open spec fn views(v: Seq<String>) -> Seq<Seq<char>> {
    v.map_values(|s: String| s@)
}

/// The pieces of `s` between occurrences of `sep`, as `str::split(sep)`
/// gives them: always one more piece than there are separators.
pub open spec fn split_char(s: Seq<char>, sep: char) -> Seq<Seq<char>>
    decreases s.len(),
{
    if s.len() == 0 {
        seq![Seq::<char>::empty()]
    } else {
        let parts = split_char(s.drop_last(), sep);
        if s.last() == sep {
            parts.push(Seq::<char>::empty())
        } else {
            parts.update(parts.len() - 1, parts.last().push(s.last()))
        }
    }
}

/// `split_char` never gives an empty list of pieces.
pub proof fn lemma_split_char_nonempty(s: Seq<char>, sep: char)
    ensures
        split_char(s, sep).len() >= 1,
    decreases s.len(),
{
    if s.len() > 0 {
        lemma_split_char_nonempty(s.drop_last(), sep);
    }
}

/// `s` without one carriage return at its end.
pub open spec fn strip_cr(s: Seq<char>) -> Seq<char> {
    if s.len() > 0 && s.last() == '\r' {
        s.drop_last()
    } else {
        s
    }
}

/// The lines of `s`, as `str::lines` gives them: split at `\n`, each line
/// that ended in `\n` loses one `\r` before it, and a last empty piece after
/// a final `\n` is no line.
pub open spec fn lines_of(s: Seq<char>) -> Seq<Seq<char>> {
    let parts = split_char(s, '\n');
    let n = parts.len() - 1;
    let ended = parts.take(n).map_values(|p: Seq<char>| strip_cr(p));
    if parts[n].len() == 0 {
        ended
    } else {
        ended.push(parts[n])
    }
}

/// The trimmed pieces that are not empty once trimmed, in order.
pub open spec fn nonempty_trimmed(parts: Seq<Seq<char>>) -> Seq<Seq<char>>
    decreases parts.len(),
{
    if parts.len() == 0 {
        Seq::<Seq<char>>::empty()
    } else {
        let rest = nonempty_trimmed(parts.drop_last());
        if trim(parts.last()).len() > 0 {
            rest.push(trim(parts.last()))
        } else {
            rest
        }
    }
}

/// `parts` joined with `sep` between every two of them, as `join` on a
/// slice of strings gives it.
pub open spec fn join(parts: Seq<Seq<char>>, sep: Seq<char>) -> Seq<char>
    decreases parts.len(),
{
    if parts.len() == 0 {
        Seq::<char>::empty()
    } else if parts.len() == 1 {
        parts[0]
    } else {
        join(parts.drop_last(), sep) + sep + parts.last()
    }
}

/// The first `count` strings of `lines`, joined with `sep`.
pub fn join_prefix(lines: &Vec<String>, count: usize, sep: &Vec<char>) -> (r: String)
    requires
        count <= lines.len(),
    ensures
        r@ == join(views(lines@).take(count as int), sep@),
{
    let mut r = String::new();
    let mut i: usize = 0;
    while i < count
        invariant
            i <= count <= lines.len(),
            r@ == join(views(lines@).take(i as int), sep@),
        decreases count - i,
    {
        let ghost before = r@;
        if i > 0 {
            let mut k: usize = 0;
            while k < sep.len()
                invariant
                    k <= sep.len(),
                    r@ == before + sep@.take(k as int),
                decreases sep.len() - k,
            {
                r.push(sep[k]);
                k += 1;
                proof {
                    assert(before + sep@.take(k as int) =~= (before + sep@.take(k - 1)).push(
                        sep@[k - 1],
                    ));
                }
            }
            proof {
                assert(sep@.take(sep.len() as int) =~= sep@);
            }
        }
        r.append(lines[i].as_str());
        proof {
            let t = views(lines@).take(i + 1);
            assert(t.drop_last() =~= views(lines@).take(i as int));
            assert(t.last() == lines@[i as int]@);
            if i == 0 {
                assert(before =~= Seq::<char>::empty());
                assert(r@ =~= t[0]);
            }
        }
        i += 1;
    }
    r
}


/// White space added at the end of `s` does not change `trim(s)`.
pub proof fn lemma_trim_push_white_space(s: Seq<char>, c: char)
    requires
        is_white_space(c),
    ensures
        trim(s.push(c)) == trim(s),
    decreases s.len(),
{
    if s.len() == 0 {
        assert(s.push(c)[0] == c);
        assert(s.push(c).drop_first() =~= Seq::<char>::empty());
        assert(trim_start(Seq::<char>::empty()) == Seq::<char>::empty());
        assert(trim_start(s.push(c)) == Seq::<char>::empty());
        assert(trim_end(Seq::<char>::empty()) == Seq::<char>::empty());
    } else if is_white_space(s[0]) {
        assert(s.push(c)[0] == s[0]);
        assert(s.push(c).drop_first() =~= s.drop_first().push(c));
        lemma_trim_push_white_space(s.drop_first(), c);
    } else {
        assert(s.push(c)[0] == s[0]);
        assert(trim_start(s.push(c)) == s.push(c));
        assert(trim_start(s) == s);
        assert(s.push(c).last() == c);
        assert(s.push(c).drop_last() =~= s);
    }
}

/// A trailing carriage return does not change what a line trims to.
pub proof fn lemma_trim_strip_cr(s: Seq<char>)
    ensures
        trim(strip_cr(s)) == trim(s),
{
    if s.len() > 0 && s.last() == '\r' {
        assert(s.drop_last().push('\r') =~= s);
        lemma_trim_push_white_space(s.drop_last(), '\r');
    }
}

/// Stripping carriage returns first does not change the trimmed pieces.
pub proof fn lemma_nonempty_trimmed_strip_cr(parts: Seq<Seq<char>>)
    ensures
        nonempty_trimmed(parts.map_values(|p: Seq<char>| strip_cr(p))) == nonempty_trimmed(parts),
    decreases parts.len(),
{
    if parts.len() > 0 {
        let m = parts.map_values(|p: Seq<char>| strip_cr(p));
        assert(m.drop_last() =~= parts.drop_last().map_values(|p: Seq<char>| strip_cr(p)));
        lemma_nonempty_trimmed_strip_cr(parts.drop_last());
        lemma_trim_strip_cr(parts.last());
    }
}

/// The trimmed non-empty lines are the trimmed non-empty pieces between
/// line breaks.
pub proof fn lemma_nonempty_trimmed_lines(s: Seq<char>)
    ensures
        nonempty_trimmed(lines_of(s)) == nonempty_trimmed(split_char(s, '\n')),
{
    let parts = split_char(s, '\n');
    lemma_split_char_nonempty(s, '\n');
    let n = parts.len() - 1;
    lemma_nonempty_trimmed_strip_cr(parts.take(n));
    assert(parts.take(n).push(parts[n]) =~= parts);
    assert(parts.drop_last() =~= parts.take(n));
    let ended = parts.take(n).map_values(|p: Seq<char>| strip_cr(p));
    if parts[n].len() == 0 {
        assert(trim(parts[n]).len() == 0);
    } else {
        assert(ended.push(parts[n]).drop_last() =~= ended);
    }
}

/// The pieces of `s` between occurrences of `sep`, trimmed, without those
/// that come out empty.
pub fn split_trimmed_nonempty(s: &str, sep: char) -> (r: Vec<String>)
    ensures
        views(r@) == nonempty_trimmed(split_char(s@, sep)),
{
    broadcast use vstd::string::axiom_spec_iter;

    let mut out: Vec<String> = Vec::new();
    let mut cur: Vec<char> = Vec::new();
    proof {
        assert(s@.take(0) =~= Seq::<char>::empty());
        assert(views(out@) =~= Seq::<Seq<char>>::empty());
    }
    for c in it: s.chars()
        invariant
            it.seq() == s@,
            0 <= it.index() <= s@.len(),
            split_char(s@.take(it.index()), sep).len() >= 1,
            cur@ == split_char(s@.take(it.index()), sep).last(),
            views(out@) == nonempty_trimmed(
                split_char(s@.take(it.index()), sep).take(
                    split_char(s@.take(it.index()), sep).len() - 1,
                ),
            ),
    {
        let ghost k = it.index();
        let ghost parts = split_char(s@.take(k), sep);
        proof {
            assert(s@.take(k + 1).drop_last() =~= s@.take(k));
            assert(s@.take(k + 1).last() == c);
        }
        if c == sep {
            let ghost before = out@;
            let piece = trimmed(&cur, 0, cur.len());
            proof {
                assert(cur@.subrange(0, cur@.len() as int) =~= cur@);
            }
            if piece.len() > 0 {
                out.push(string_of(piece.as_slice()));
                proof {
                    assert(views(out@) =~= views(before).push(piece@));
                }
            }
            proof {
                let next = split_char(s@.take(k + 1), sep);
                assert(next == parts.push(Seq::<char>::empty()));
                assert(next.take(next.len() - 1) =~= parts);
                assert(parts.drop_last() =~= parts.take(parts.len() - 1));
            }
            cur = Vec::new();
            proof {
                assert(cur@ =~= Seq::<char>::empty());
            }
        } else {
            cur.push(c);
            proof {
                let next = split_char(s@.take(k + 1), sep);
                assert(next == parts.update(parts.len() - 1, parts.last().push(c)));
                assert(next.take(next.len() - 1) =~= parts.take(parts.len() - 1));
            }
        }
    }
    proof {
        assert(s@.take(s@.len() as int) =~= s@);
    }
    let ghost before = out@;
    let ghost parts = split_char(s@, sep);
    let piece = trimmed(&cur, 0, cur.len());
    proof {
        assert(cur@.subrange(0, cur@.len() as int) =~= cur@);
        assert(parts.drop_last() =~= parts.take(parts.len() - 1));
    }
    if piece.len() > 0 {
        out.push(string_of(piece.as_slice()));
        proof {
            assert(views(out@) =~= views(before).push(piece@));
        }
    }
    out
}


/// `trim_start` keeps a suffix of `s`, and it does not start with white
/// space.
pub proof fn lemma_trim_start_shape(s: Seq<char>)
    ensures
        trim_start(s).len() <= s.len(),
        trim_start(s) == s.skip(s.len() - trim_start(s).len()),
        trim_start(s).len() > 0 ==> !is_white_space(trim_start(s)[0]),
    decreases s.len(),
{
    if s.len() > 0 && is_white_space(s[0]) {
        lemma_trim_start_shape(s.drop_first());
        assert(trim_start(s) == trim_start(s.drop_first()));
        assert(s.drop_first().skip(s.drop_first().len() - trim_start(s).len()) =~= s.skip(
            s.len() - trim_start(s).len(),
        ));
    } else {
        assert(s.skip(0) =~= s);
    }
}

/// `trim_end` keeps a prefix of `s`, and it does not end with white space.
pub proof fn lemma_trim_end_shape(s: Seq<char>)
    ensures
        trim_end(s).len() <= s.len(),
        trim_end(s) == s.take(trim_end(s).len() as int),
        trim_end(s).len() > 0 ==> !is_white_space(trim_end(s).last()),
    decreases s.len(),
{
    if s.len() > 0 && is_white_space(s.last()) {
        lemma_trim_end_shape(s.drop_last());
        assert(trim_end(s) == trim_end(s.drop_last()));
        assert(s.drop_last().take(trim_end(s).len() as int) =~= s.take(
            trim_end(s).len() as int,
        ));
    } else {
        assert(s.take(s.len() as int) =~= s);
    }
}

/// What `trim` gives neither starts nor ends with white space.
pub proof fn lemma_trim_shape(s: Seq<char>)
    ensures
        trim(s).len() > 0 ==> !is_white_space(trim(s)[0]) && !is_white_space(trim(s).last()),
        trim(s).len() <= s.len(),
{
    lemma_trim_start_shape(s);
    lemma_trim_end_shape(trim_start(s));
    let t = trim_start(s);
    if trim(s).len() > 0 {
        assert(trim(s) == t.take(trim(s).len() as int));
        assert(trim(s)[0] == t[0]);
    }
}

/// A sequence that neither starts nor ends with white space is its own trim.
pub proof fn lemma_trim_of_trimmed(s: Seq<char>)
    requires
        s.len() > 0 ==> !is_white_space(s[0]) && !is_white_space(s.last()),
    ensures
        trim(s) == s,
{
    lemma_trim_start_skip(s, 0);
    assert(s.skip(0) =~= s);
    lemma_trim_end_take(s, s.len() as int);
    assert(s.take(s.len() as int) =~= s);
}

/// Trimming twice is trimming once.
pub proof fn lemma_trim_idempotent(s: Seq<char>)
    ensures
        trim(trim(s)) == trim(s),
{
    lemma_trim_shape(s);
    lemma_trim_of_trimmed(trim(s));
}


/// `p` is a prefix of `s`.
pub open spec fn is_prefix(p: Seq<char>, s: Seq<char>) -> bool {
    p.len() <= s.len() && s.take(p.len() as int) == p
}

/// Joining the first `k` parts gives a prefix of joining them all.
pub proof fn lemma_join_take_is_prefix(parts: Seq<Seq<char>>, k: int, sep: Seq<char>)
    requires
        0 <= k <= parts.len(),
    ensures
        is_prefix(join(parts.take(k), sep), join(parts, sep)),
    decreases parts.len(),
{
    if k == parts.len() {
        assert(parts.take(k) =~= parts);
        assert(join(parts, sep).take(join(parts, sep).len() as int) =~= join(parts, sep));
    } else if parts.len() == 1 {
        assert(parts.take(0) =~= Seq::<Seq<char>>::empty());
        assert(join(parts, sep).take(0) =~= Seq::<char>::empty());
    } else {
        let init = parts.drop_last();
        lemma_join_take_is_prefix(init, k, sep);
        assert(init.take(k) =~= parts.take(k));
        let a = join(init, sep);
        let whole = join(parts, sep);
        let p = join(parts.take(k), sep);
        assert(whole == a + sep + parts.last());
        assert(whole.take(p.len() as int) =~= a.take(p.len() as int));
    }
}


/// `c` does not occur in `s`.
pub open spec fn free_of(s: Seq<char>, c: char) -> bool {
    forall|j: int| 0 <= j < s.len() ==> s[j] != c
}

/// Appending text without a separator extends the last piece.
pub proof fn lemma_split_char_extend(a: Seq<char>, b: Seq<char>, sep: char)
    requires
        free_of(b, sep),
    ensures
        split_char(a + b, sep) == split_char(a, sep).update(
            split_char(a, sep).len() - 1,
            split_char(a, sep).last() + b,
        ),
    decreases b.len(),
{
    lemma_split_char_nonempty(a, sep);
    let pa = split_char(a, sep);
    if b.len() == 0 {
        assert(a + b =~= a);
        assert(pa.last() + b =~= pa.last());
        assert(pa.update(pa.len() - 1, pa.last()) =~= pa);
    } else {
        let b0 = b.drop_last();
        assert forall|j: int| 0 <= j < b0.len() implies b0[j] != sep by {
            assert(b0[j] == b[j]);
        }
        lemma_split_char_extend(a, b0, sep);
        assert((a + b).drop_last() =~= a + b0);
        assert((a + b).last() == b.last());
        assert(b.last() != sep);
        let p0 = split_char(a + b0, sep);
        assert(p0.len() == pa.len());
        assert(p0.last() == pa.last() + b0);
        assert((pa.last() + b0).push(b.last()) =~= pa.last() + b);
        assert(p0.update(p0.len() - 1, p0.last().push(b.last())) =~= pa.update(
            pa.len() - 1,
            pa.last() + b,
        ));
    }
}

/// A separator at the end starts a new, empty piece.
pub proof fn lemma_split_char_sep(a: Seq<char>, sep: char)
    ensures
        split_char(a.push(sep), sep) == split_char(a, sep).push(Seq::<char>::empty()),
{
    assert(a.push(sep).drop_last() =~= a);
}

/// No piece of `split_char(s, sep)` holds `sep`.
pub proof fn lemma_split_char_pieces_free(s: Seq<char>, sep: char)
    ensures
        forall|i: int|
            0 <= i < split_char(s, sep).len() ==> free_of(#[trigger] split_char(s, sep)[i], sep),
    decreases s.len(),
{
    if s.len() > 0 {
        lemma_split_char_pieces_free(s.drop_last(), sep);
        lemma_split_char_nonempty(s.drop_last(), sep);
        let parts = split_char(s.drop_last(), sep);
        if s.last() != sep {
            let grown = parts.last().push(s.last());
            assert(free_of(parts[parts.len() - 1], sep));
            assert forall|j: int| 0 <= j < grown.len() implies grown[j] != sep by {
                if j < parts.last().len() {
                    assert(grown[j] == parts.last()[j]);
                }
            }
        }
    }
}

/// What `nonempty_trimmed` keeps are trimmed, non-empty pieces, each free of
/// a character that its piece is free of.
pub proof fn lemma_nonempty_trimmed_items(parts: Seq<Seq<char>>, c: char)
    requires
        forall|i: int| 0 <= i < parts.len() ==> free_of(#[trigger] parts[i], c),
    ensures
        forall|i: int|
            0 <= i < nonempty_trimmed(parts).len() ==> {
                &&& (#[trigger] nonempty_trimmed(parts)[i]).len() > 0
                &&& trim(nonempty_trimmed(parts)[i]) == nonempty_trimmed(parts)[i]
                &&& free_of(nonempty_trimmed(parts)[i], c)
            },
    decreases parts.len(),
{
    if parts.len() > 0 {
        let init = parts.drop_last();
        assert forall|i: int| 0 <= i < init.len() implies free_of(#[trigger] init[i], c) by {
            assert(init[i] == parts[i]);
        }
        lemma_nonempty_trimmed_items(init, c);
        let p = parts.last();
        let t = trim(p);
        lemma_trim_idempotent(p);
        lemma_trim_start_shape(p);
        lemma_trim_end_shape(trim_start(p));
        assert(free_of(p, c)) by {
            assert(parts[parts.len() - 1] == p);
        }
        assert forall|j: int| 0 <= j < t.len() implies t[j] != c by {
            let off = p.len() - trim_start(p).len();
            assert(t[j] == trim_start(p)[j]);
            assert(trim_start(p)[j] == p[off + j]);
        }
        let rest = nonempty_trimmed(init);
        let r = nonempty_trimmed(parts);
        assert forall|i: int| 0 <= i < r.len() implies {
            &&& (#[trigger] r[i]).len() > 0
            &&& trim(r[i]) == r[i]
            &&& free_of(r[i], c)
        } by {
            if i < rest.len() {
                assert(r[i] == rest[i]);
            } else {
                assert(r[i] == t);
            }
        }
    }
}

/// A blank before a piece does not change what it trims to.
pub proof fn lemma_trim_after_blank(s: Seq<char>)
    ensures
        trim(seq![' '] + s) == trim(s),
{
    assert((seq![' '] + s).drop_first() =~= s);
    assert((seq![' '] + s)[0] == ' ');
}


/// Trimming keeps a sequence free of `c`.
pub proof fn lemma_trim_free(s: Seq<char>, c: char)
    requires
        free_of(s, c),
    ensures
        free_of(trim(s), c),
{
    lemma_trim_start_shape(s);
    lemma_trim_end_shape(trim_start(s));
    let t = trim(s);
    assert forall|j: int| 0 <= j < t.len() implies t[j] != c by {
        let off = s.len() - trim_start(s).len();
        assert(t[j] == trim_start(s)[j]);
        assert(trim_start(s)[j] == s[off + j]);
    }
}

/// Taking out a pattern keeps a sequence free of `c`.
pub proof fn lemma_remove_all_free(s: Seq<char>, pat: Seq<char>, c: char)
    requires
        free_of(s, c),
    ensures
        free_of(remove_all(s, pat), c),
    decreases s.len(),
{
    if pat.len() == 0 || s.len() < pat.len() {
    } else if s.take(pat.len() as int) == pat {
        let t = s.skip(pat.len() as int);
        assert forall|j: int| 0 <= j < t.len() implies t[j] != c by {
            assert(t[j] == s[pat.len() + j]);
        }
        lemma_remove_all_free(t, pat, c);
    } else {
        let t = s.drop_first();
        assert forall|j: int| 0 <= j < t.len() implies t[j] != c by {
            assert(t[j] == s[j + 1]);
        }
        lemma_remove_all_free(t, pat, c);
        let r = seq![s[0]] + remove_all(t, pat);
        assert forall|j: int| 0 <= j < r.len() implies r[j] != c by {
            if j > 0 {
                assert(r[j] == remove_all(t, pat)[j - 1]);
            }
        }
    }
}

/// No line of `s` holds a line break.
pub proof fn lemma_lines_free(s: Seq<char>)
    ensures
        forall|i: int| 0 <= i < lines_of(s).len() ==> free_of(#[trigger] lines_of(s)[i], '\n'),
{
    let parts = split_char(s, '\n');
    lemma_split_char_nonempty(s, '\n');
    lemma_split_char_pieces_free(s, '\n');
    let n = parts.len() - 1;
    let ls = lines_of(s);
    assert forall|i: int| 0 <= i < ls.len() implies free_of(#[trigger] ls[i], '\n') by {
        assert(free_of(parts[i], '\n'));
        if i < n {
            assert(ls[i] == strip_cr(parts[i]));
            let p = parts[i];
            if p.len() > 0 && p.last() == '\r' {
                assert forall|j: int| 0 <= j < p.drop_last().len() implies p.drop_last()[j]
                    != '\n' by {
                    assert(p.drop_last()[j] == p[j]);
                }
            }
        } else {
            assert(ls[i] == parts[n]);
        }
    }
}

/// Splitting at `sep` what was joined with `sep` gives back the parts, when
/// there is at least one and none holds `sep`.
pub proof fn lemma_split_join(parts: Seq<Seq<char>>, sep: char)
    requires
        parts.len() >= 1,
        forall|i: int| 0 <= i < parts.len() ==> free_of(#[trigger] parts[i], sep),
    ensures
        split_char(join(parts, seq![sep]), sep) == parts,
    decreases parts.len(),
{
    let e = Seq::<char>::empty();
    if parts.len() == 1 {
        let w = parts[0];
        lemma_split_char_extend(e, w, sep);
        assert(e + w =~= w);
        assert(split_char(e, sep) == seq![e]);
        assert(seq![e].update(0, e + w) =~= parts);
    } else {
        let init = parts.drop_last();
        assert forall|i: int| 0 <= i < init.len() implies free_of(#[trigger] init[i], sep) by {
            assert(init[i] == parts[i]);
        }
        lemma_split_join(init, sep);
        let a = join(init, seq![sep]);
        let w = parts.last();
        assert(free_of(parts[parts.len() - 1], sep));
        assert(join(parts, seq![sep]) =~= a.push(sep) + w);
        lemma_split_char_sep(a, sep);
        lemma_split_char_extend(a.push(sep), w, sep);
        let pb = split_char(a.push(sep), sep);
        assert(pb.last() + w =~= w);
        assert(pb.update(pb.len() - 1, w) =~= parts);
    }
}


/// Among ASCII characters exactly tab, line feed, vertical tab, form feed,
/// carriage return and space are white space; letters, digits and
/// punctuation never are.
pub proof fn lemma_ascii_white_space(c: char)
    requires
        (c as u32) < 0x80,
    ensures
        is_white_space(c) <==> (c == '\t' || c == '\n' || c == '\x0B' || c == '\x0C' || c == '\r'
            || c == ' '),
        0x21 <= (c as u32) <= 0x7E ==> !is_white_space(c),
{
}

/// No character of the Cyrillic block (U+0400 to U+04FF) is white space.
pub proof fn lemma_cyrillic_not_white_space(c: char)
    requires
        0x400 <= (c as u32) <= 0x4FF,
    ensures
        !is_white_space(c),
{
}

/// What `trim` removes is white space only: it keeps a contiguous piece of
/// `s`, everything before and after that piece is white space, and the piece
/// neither starts nor ends with white space.
pub proof fn lemma_trim_removes_only_white_space(s: Seq<char>)
    ensures
        exists|a: int, b: int|
            {
                &&& 0 <= a <= b <= s.len()
                &&& trim(s) == s.subrange(a, b)
                &&& forall|i: int| 0 <= i < a ==> is_white_space(#[trigger] s[i])
                &&& forall|i: int| b <= i < s.len() ==> is_white_space(#[trigger] s[i])
                &&& a < b ==> !is_white_space(s[a]) && !is_white_space(s[b - 1])
            },
{
    lemma_trim_start_shape(s);
    lemma_trim_end_shape(trim_start(s));
    lemma_trim_shape(s);
    let a = s.len() - trim_start(s).len();
    let b = a + trim(s).len();
    lemma_trim_start_prefix_white(s);
    lemma_trim_end_suffix_white(trim_start(s));
    assert(trim(s) =~= s.subrange(a, b));
    assert forall|i: int| b <= i < s.len() implies is_white_space(#[trigger] s[i]) by {
        assert(s[i] == trim_start(s)[i - a]);
    }
    if a < b {
        assert(s[a] == trim(s)[0]);
        assert(s[b - 1] == trim(s).last());
    }
}

/// What `trim_start` drops is white space.
proof fn lemma_trim_start_prefix_white(s: Seq<char>)
    ensures
        forall|i: int| 0 <= i < s.len() - trim_start(s).len() ==> is_white_space(#[trigger] s[i]),
    decreases s.len(),
{
    lemma_trim_start_shape(s);
    if s.len() > 0 && is_white_space(s[0]) {
        let t = s.drop_first();
        lemma_trim_start_prefix_white(t);
        assert forall|i: int| 0 <= i < s.len() - trim_start(s).len() implies is_white_space(
            #[trigger] s[i],
        ) by {
            if i > 0 {
                assert(s[i] == t[i - 1]);
            }
        }
    }
}

/// What `trim_end` drops is white space.
proof fn lemma_trim_end_suffix_white(s: Seq<char>)
    ensures
        forall|i: int| trim_end(s).len() <= i < s.len() ==> is_white_space(#[trigger] s[i]),
    decreases s.len(),
{
    lemma_trim_end_shape(s);
    if s.len() > 0 && is_white_space(s.last()) {
        let t = s.drop_last();
        lemma_trim_end_suffix_white(t);
        assert forall|i: int| trim_end(s).len() <= i < s.len() implies is_white_space(
            #[trigger] s[i],
        ) by {
            if i < t.len() {
                assert(s[i] == t[i]);
            }
        }
    }
}

/// Every character takes at least one byte in UTF-8.
pub proof fn lemma_utf8_at_least_one_byte_each(s: Seq<char>)
    ensures
        vstd::utf8::encode_utf8(s).len() >= s.len(),
    decreases s.len(),
{
    if s.len() > 0 {
        lemma_utf8_at_least_one_byte_each(s.drop_first());
    }
}


/// Some character of `pat`, laid over `s` from position `k`, differs.
pub open spec fn differs_at(s: Seq<char>, pat: Seq<char>, k: int) -> bool {
    exists|t: int| 0 <= t < pat.len() && s[k + t] != #[trigger] pat[t]
}

/// `find` gives the first position where `pat` stands in `s`, character by
/// character, and nothing exactly when it stands nowhere.
pub proof fn lemma_find_is_first_occurrence(s: Seq<char>, pat: Seq<char>)
    ensures
        find(s, pat) matches Some(j) ==> {
            &&& 0 <= j && j + pat.len() <= s.len()
            &&& forall|t: int| 0 <= t < pat.len() ==> s[j + t] == #[trigger] pat[t]
            &&& forall|k: int| 0 <= k < j ==> #[trigger] differs_at(s, pat, k)
        },
        find(s, pat) is None ==> forall|k: int|
            0 <= k && k + pat.len() <= s.len() ==> #[trigger] differs_at(s, pat, k),
{
    lemma_find(s, pat);
    if let Some(j) = find(s, pat) {
        assert forall|t: int| 0 <= t < pat.len() implies s[j + t] == #[trigger] pat[t] by {
            assert(s.subrange(j, j + pat.len())[t] == s[j + t]);
        }
        assert forall|k: int| 0 <= k < j implies #[trigger] differs_at(s, pat, k) by {
            assert(!matches_at(s, pat, k));
            if k + pat.len() <= s.len() {
                assert(!(s.subrange(k, k + pat.len()) =~= pat));
                let t = choose|t: int|
                    0 <= t < pat.len() && s.subrange(k, k + pat.len())[t] != pat[t];
                assert(s.subrange(k, k + pat.len())[t] == s[k + t]);
            } else {
                assert(j + pat.len() <= s.len());
            }
        }
    } else {
        assert forall|k: int| 0 <= k && k + pat.len() <= s.len() implies #[trigger] differs_at(
            s,
            pat,
            k,
        ) by {
            assert(!matches_at(s, pat, k));
            assert(!(s.subrange(k, k + pat.len()) =~= pat));
            let t = choose|t: int| 0 <= t < pat.len() && s.subrange(k, k + pat.len())[t] != pat[t];
            assert(s.subrange(k, k + pat.len())[t] == s[k + t]);
        }
    }
}


/// Taking out a pattern leaves text where it does not occur unchanged, and
/// takes out an occurrence at the front together with whatever later
/// occurrences follow.
pub proof fn lemma_remove_all_laws(s: Seq<char>, pat: Seq<char>)
    requires
        pat.len() > 0,
    ensures
        (forall|k: int| 0 <= k && k + pat.len() <= s.len() ==> #[trigger] differs_at(s, pat, k))
            ==> remove_all(s, pat) == s,
        remove_all(pat + s, pat) == remove_all(s, pat),
        remove_all(s, pat).len() <= s.len(),
    decreases s.len(),
{
    assert((pat + s).take(pat.len() as int) =~= pat);
    assert((pat + s).skip(pat.len() as int) =~= s);
    if s.len() >= pat.len() {
        let t = s.drop_first();
        lemma_remove_all_laws(t, pat);
        if forall|k: int| 0 <= k && k + pat.len() <= s.len() ==> #[trigger] differs_at(s, pat, k) {
            assert(differs_at(s, pat, 0));
            let j = choose|j: int| 0 <= j < pat.len() && s[0 + j] != #[trigger] pat[j];
            assert(s.take(pat.len() as int)[j] == s[j]);
            assert(s.take(pat.len() as int) != pat);
            assert forall|k: int| 0 <= k && k + pat.len() <= t.len() implies #[trigger] differs_at(
                t,
                pat,
                k,
            ) by {
                assert(differs_at(s, pat, k + 1));
                let u = choose|u: int| 0 <= u < pat.len() && s[k + 1 + u] != #[trigger] pat[u];
                assert(t[k + u] == s[k + 1 + u]);
            }
            assert(seq![s[0]] + t =~= s);
        }
        if s.take(pat.len() as int) == pat {
            lemma_remove_all_laws(s.skip(pat.len() as int), pat);
        }
    }
}

/// A single line without a break is its own only line; a line break, or a
/// carriage return and a line break, after it ends it without adding an
/// empty line.
pub proof fn lemma_lines_of_one_line(x: Seq<char>)
    requires
        free_of(x, '\n'),
    ensures
        x.len() > 0 ==> lines_of(x) == seq![x],
        x.len() == 0 ==> lines_of(x) == Seq::<Seq<char>>::empty(),
        lines_of(x.push('\n')) == seq![strip_cr(x)],
        lines_of(x.push('\r').push('\n')) == seq![x],
{
    let e = Seq::<char>::empty();
    assert(split_char(e, '\n') == seq![e]);
    lemma_split_char_extend(e, x, '\n');
    assert(e + x =~= x);
    assert(seq![e].update(0, e + x) =~= seq![x]);
    let px = split_char(x, '\n');
    assert(px == seq![x]);
    assert(px.take(0) =~= Seq::<Seq<char>>::empty());
    if x.len() > 0 {
        assert(Seq::<Seq<char>>::empty().push(x) =~= seq![x]);
    }
    lemma_split_char_sep(x, '\n');
    let py = split_char(x.push('\n'), '\n');
    assert(py == seq![x, e]);
    assert(py.take(1) =~= seq![x]);
    assert(seq![x].map_values(|p: Seq<char>| strip_cr(p)) =~= seq![strip_cr(x)]);
    let xr = x.push('\r');
    assert forall|j: int| 0 <= j < xr.len() implies xr[j] != '\n' by {
        if j < x.len() {
            assert(xr[j] == x[j]);
        }
    }
    lemma_split_char_extend(e, xr, '\n');
    assert(e + xr =~= xr);
    assert(seq![e].update(0, e + xr) =~= seq![xr]);
    lemma_split_char_sep(xr, '\n');
    let pz = split_char(xr.push('\n'), '\n');
    assert(pz == seq![xr, e]);
    assert(pz.take(1) =~= seq![xr]);
    assert(xr.drop_last() =~= x);
    assert(seq![xr].map_values(|p: Seq<char>| strip_cr(p)) =~= seq![x]);
}

} // verus!
