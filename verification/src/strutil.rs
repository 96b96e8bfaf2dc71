//! Byte-string utilities: trimming, splitting, joining, searching.
//!
//! All text handled by the library is UTF-8 bytes; whitespace and the
//! token alphabet are the ASCII ranges, and bytes above 127 are treated
//! as word characters, so multi-byte sequences stay intact.

use vstd::prelude::*;
use vstd::string::StringSliceAdditionalSpecFns;

verus! {

/// ASCII whitespace: space, tab, line feed, vertical tab, form feed,
/// carriage return.
pub open spec fn is_space(b: u8) -> bool {
    b == 32 || 9 <= b && b <= 13
}

/// Bytes that make up a search token: ASCII alphanumerics, plus any
/// byte above 127 so that non-ASCII characters are kept whole.
pub open spec fn is_token_byte(b: u8) -> bool {
    48 <= b && b <= 57 || 97 <= b && b <= 122 || 65 <= b && b <= 90 || b >= 128
}

pub open spec fn lower_byte(b: u8) -> u8 {
    if 65 <= b && b <= 90 {
        (b + 32) as u8
    } else {
        b
    }
}

/// ASCII lowercasing, byte for byte.
pub open spec fn lower_of(s: Seq<u8>) -> Seq<u8> {
    s.map_values(|b: u8| lower_byte(b))
}

/// A UTF-8 continuation byte; every other byte starts a character.
pub open spec fn is_cont_byte(b: u8) -> bool {
    128 <= b && b < 192
}

/// The number of characters in a suffix: one per leading byte.
pub open spec fn char_count_from(s: Seq<u8>, i: int) -> int
    decreases s.len() - i,
{
    if i < 0 || i >= s.len() {
        0
    } else {
        (if is_cont_byte(s[i]) {
            0int
        } else {
            1int
        }) + char_count_from(s, i + 1)
    }
}

/// The number of characters a byte string holds.
pub open spec fn char_count(s: Seq<u8>) -> int {
    char_count_from(s, 0)
}

/// Where the character with order number `k` starts, scanning from
/// `i`; the length when there are not that many.
pub open spec fn nth_char_start(s: Seq<u8>, i: int, k: int) -> int
    decreases s.len() - i,
{
    if i < 0 || i >= s.len() {
        s.len() as int
    } else if !is_cont_byte(s[i]) {
        if k <= 0 {
            i
        } else {
            nth_char_start(s, i + 1, k - 1)
        }
    } else {
        nth_char_start(s, i + 1, k)
    }
}

/// The first `k` characters of a byte string.
pub open spec fn take_chars(s: Seq<u8>, k: int) -> Seq<u8> {
    s.subrange(0, nth_char_start(s, 0, k))
}

/// Counts the characters of a byte string.
pub fn char_count_exec(s: &[u8]) -> (n: usize)
    ensures
        n == char_count(s@),
{
    let mut count: usize = 0;
    let mut i: usize = 0;
    while i < s.len()
        invariant
            i <= s.len(),
            count <= i,
            char_count(s@) == count + char_count_from(s@, i as int),
        decreases s.len() - i,
    {
        let b = s[i];
        if !(128 <= b && b < 192) {
            count = count + 1;
        }
        i = i + 1;
    }
    count
}

/// Cuts a byte string to its first `k` characters.
pub fn take_chars_exec(s: &[u8], k: usize) -> (r: Vec<u8>)
    ensures
        r@ == take_chars(s@, k as int),
{
    let mut i: usize = 0;
    let mut rem: usize = k;
    let mut stop = false;
    while i < s.len() && !stop
        invariant
            i <= s.len(),
            rem <= k,
            !stop ==> nth_char_start(s@, 0, k as int) == nth_char_start(
                s@,
                i as int,
                rem as int,
            ),
            stop ==> nth_char_start(s@, 0, k as int) == i,
        decreases s.len() - i + (if stop {
            0int
        } else {
            1int
        }),
    {
        let b = s[i];
        if !(128 <= b && b < 192) {
            if rem == 0 {
                stop = true;
            } else {
                rem = rem - 1;
                i = i + 1;
            }
        } else {
            i = i + 1;
        }
    }
    let ghost end = nth_char_start(s@, 0, k as int);
    proof {
        assert(end == i);
    }
    let mut r: Vec<u8> = Vec::new();
    let mut j: usize = 0;
    proof {
        assert(r@ =~= s@.subrange(0, 0));
    }
    while j < i
        invariant
            j <= i <= s@.len(),
            r@ == s@.subrange(0, j as int),
        decreases i - j,
    {
        r.push(s[j]);
        proof {
            assert(r@ =~= s@.subrange(0, j + 1));
        }
        j = j + 1;
    }
    r
}

pub open spec fn trim_start_idx(s: Seq<u8>, i: int) -> int
    decreases s.len() - i,
{
    if i >= s.len() {
        i
    } else if is_space(s[i]) {
        trim_start_idx(s, i + 1)
    } else {
        i
    }
}

pub open spec fn trim_end_idx(s: Seq<u8>, i: int) -> int
    decreases i,
{
    if i <= 0 {
        0
    } else if is_space(s[i - 1]) {
        trim_end_idx(s, i - 1)
    } else {
        i
    }
}

/// The byte string with leading and trailing whitespace removed.
pub open spec fn trim_of(s: Seq<u8>) -> Seq<u8> {
    let a = trim_start_idx(s, 0);
    let b = trim_end_idx(s, s.len() as int);
    if a < b {
        s.subrange(a, b)
    } else {
        Seq::empty()
    }
}

/// Splitting with an accumulator: `cur` is the word being read, `acc`
/// the words already read. A byte is part of a word exactly when
/// `keep` holds of it.
pub open spec fn split_acc(
    s: Seq<u8>,
    i: int,
    cur: Seq<u8>,
    acc: Seq<Seq<u8>>,
    keep: spec_fn(u8) -> bool,
) -> Seq<Seq<u8>>
    decreases s.len() - i,
{
    if i >= s.len() {
        if cur.len() > 0 {
            acc.push(cur)
        } else {
            acc
        }
    } else if keep(s[i]) {
        split_acc(s, i + 1, cur.push(s[i]), acc, keep)
    } else {
        if cur.len() > 0 {
            split_acc(s, i + 1, Seq::empty(), acc.push(cur), keep)
        } else {
            split_acc(s, i + 1, cur, acc, keep)
        }
    }
}

/// One splitting state with the word alphabet fixed to non-whitespace.
pub open spec fn words_step(s: Seq<u8>, i: int, cur: Seq<u8>, acc: Seq<Seq<u8>>) -> Seq<
    Seq<u8>,
> {
    split_acc(s, i, cur, acc, |b: u8| !is_space(b))
}

/// The whitespace-separated words of a byte string.
pub open spec fn words_of(s: Seq<u8>) -> Seq<Seq<u8>> {
    words_step(s, 0, Seq::empty(), Seq::empty())
}

/// One splitting state with the word alphabet fixed to token bytes.
pub open spec fn tokens_step(s: Seq<u8>, i: int, cur: Seq<u8>, acc: Seq<Seq<u8>>) -> Seq<
    Seq<u8>,
> {
    split_acc(s, i, cur, acc, |b: u8| is_token_byte(b))
}

/// The search tokens of a byte string: lowercase, split at every byte
/// outside the token alphabet.
pub open spec fn raw_tokens_of(s: Seq<u8>) -> Seq<Seq<u8>> {
    tokens_step(lower_of(s), 0, Seq::empty(), Seq::empty())
}

/// The views of a vector of byte vectors.
pub open spec fn seqs_of(v: Vec<Vec<u8>>) -> Seq<Seq<u8>> {
    Seq::new(v@.len(), |i: int| v@[i]@)
}

pub open spec fn join_with(parts: Seq<Seq<u8>>, sep: Seq<u8>) -> Seq<u8>
    decreases parts.len(),
{
    if parts.len() == 0 {
        Seq::empty()
    } else if parts.len() == 1 {
        parts[0]
    } else {
        parts[0] + sep + join_with(parts.subrange(1, parts.len() as int), sep)
    }
}

pub open spec fn match_at(s: Seq<u8>, pat: Seq<u8>, i: int) -> bool {
    0 <= i && i + pat.len() <= s.len() && s.subrange(i, i + pat.len()) == pat
}

pub open spec fn find_from(s: Seq<u8>, pat: Seq<u8>, i: int) -> Option<int>
    decreases s.len() + 1 - i,
{
    if i + pat.len() > s.len() {
        None
    } else if match_at(s, pat, i) {
        Some(i)
    } else {
        find_from(s, pat, i + 1)
    }
}

/// The least index at which `pat` occurs in `s`, if any.
pub open spec fn find_of(s: Seq<u8>, pat: Seq<u8>) -> Option<int> {
    find_from(s, pat, 0)
}

/// The bytes of a string literal, as an owned vector.
pub fn lit(s: &str) -> (v: Vec<u8>)
    ensures
        v@ == s.spec_bytes(),
{
    vstd::slice::slice_to_vec(s.as_bytes())
}

pub fn bytes_eq(a: &[u8], b: &[u8]) -> (r: bool)
    ensures
        r == (a@ == b@),
{
    if a.len() != b.len() {
        return false;
    }
    let mut i: usize = 0;
    while i < a.len()
        invariant
            i <= a.len(),
            a@.len() == b@.len(),
            forall|j: int| 0 <= j < i ==> a@[j] == b@[j],
        decreases a.len() - i,
    {
        if a[i] != b[i] {
            return false;
        }
        i = i + 1;
    }
    proof {
        assert(a@ =~= b@);
    }
    true
}

/// Whether a byte string equals the bytes of a string literal.
pub fn is_lit(t: &[u8], s: &str) -> (r: bool)
    ensures
        r == (t@ == s.spec_bytes()),
{
    bytes_eq(t, s.as_bytes())
}

/// Appends `s` to `out`.
pub fn append_bytes(out: &mut Vec<u8>, s: &[u8])
    ensures
        final(out)@ == old(out)@ + s@,
{
    let mut i: usize = 0;
    while i < s.len()
        invariant
            i <= s.len(),
            out@ == old(out)@ + s@.subrange(0, i as int),
        decreases s.len() - i,
    {
        out.push(s[i]);
        proof {
            assert(out@ =~= old(out)@ + s@.subrange(0, i + 1));
        }
        i = i + 1;
    }
    proof {
        assert(out@ =~= old(out)@ + s@);
    }
}

pub fn to_lower(s: &[u8]) -> (r: Vec<u8>)
    ensures
        r@ == lower_of(s@),
{
    let mut r: Vec<u8> = Vec::new();
    let mut i: usize = 0;
    while i < s.len()
        invariant
            i <= s.len(),
            r@.len() == i,
            forall|j: int| 0 <= j < i ==> r@[j] == lower_byte(s@[j]),
        decreases s.len() - i,
    {
        let b = s[i];
        if 65 <= b && b <= 90 {
            r.push(b + 32);
        } else {
            r.push(b);
        }
        i = i + 1;
    }
    proof {
        assert(r@ =~= lower_of(s@));
    }
    r
}

pub open spec fn upper_byte(b: u8) -> u8 {
    if 97 <= b && b <= 122 {
        (b - 32) as u8
    } else {
        b
    }
}

/// ASCII uppercasing, byte for byte.
pub open spec fn upper_of(s: Seq<u8>) -> Seq<u8> {
    s.map_values(|b: u8| upper_byte(b))
}

pub fn to_upper(s: &[u8]) -> (r: Vec<u8>)
    ensures
        r@ == upper_of(s@),
{
    let mut r: Vec<u8> = Vec::new();
    let mut i: usize = 0;
    while i < s.len()
        invariant
            i <= s.len(),
            r@.len() == i,
            forall|j: int| 0 <= j < i ==> r@[j] == upper_byte(s@[j]),
        decreases s.len() - i,
    {
        let b = s[i];
        if 97 <= b && b <= 122 {
            r.push(b - 32);
        } else {
            r.push(b);
        }
        i = i + 1;
    }
    proof {
        assert(r@ =~= upper_of(s@));
    }
    r
}

pub fn trim(s: &[u8]) -> (r: Vec<u8>)
    ensures
        r@ == trim_of(s@),
{
    let mut a: usize = 0;
    while a < s.len() && is_space_exec(s[a])
        invariant
            a <= s.len(),
            trim_start_idx(s@, 0) == trim_start_idx(s@, a as int),
        decreases s.len() - a,
    {
        a = a + 1;
    }
    let mut b: usize = s.len();
    while b > 0 && is_space_exec(s[b - 1])
        invariant
            b <= s.len(),
            trim_end_idx(s@, s@.len() as int) == trim_end_idx(s@, b as int),
        decreases b,
    {
        b = b - 1;
    }
    let mut r: Vec<u8> = Vec::new();
    if a >= b {
        proof {
            assert(trim_start_idx(s@, a as int) == a || a == s.len());
            assert(r@ =~= trim_of(s@));
        }
        return r;
    }
    let mut i: usize = a;
    while i < b
        invariant
            a <= i <= b <= s.len(),
            r@ == s@.subrange(a as int, i as int),
        decreases b - i,
    {
        r.push(s[i]);
        proof {
            assert(r@ =~= s@.subrange(a as int, i + 1));
        }
        i = i + 1;
    }
    proof {
        assert(trim_start_idx(s@, a as int) == a);
        assert(trim_end_idx(s@, b as int) == b);
        assert(r@ =~= trim_of(s@));
    }
    r
}

pub fn is_space_exec(b: u8) -> (r: bool)
    ensures
        r == is_space(b),
{
    b == 32 || 9 <= b && b <= 13
}

pub fn is_token_byte_exec(b: u8) -> (r: bool)
    ensures
        r == is_token_byte(b),
{
    48 <= b && b <= 57 || 97 <= b && b <= 122 || 65 <= b && b <= 90 || b >= 128
}

/// Splits a byte string into whitespace-separated words.
pub fn split_words(s: &[u8]) -> (r: Vec<Vec<u8>>)
    ensures
        seqs_of(r) == words_of(s@),
{
    let mut acc: Vec<Vec<u8>> = Vec::new();
    let mut cur: Vec<u8> = Vec::new();
    proof {
        assert(seqs_of(acc) =~= Seq::<Seq<u8>>::empty());
    }
    let mut i: usize = 0;
    while i < s.len()
        invariant
            i <= s.len(),
            words_of(s@) == words_step(s@, i as int, cur@, seqs_of(acc)),
        decreases s.len() - i,
    {
        let b = s[i];
        if !is_space_exec(b) {
            cur.push(b);
        } else {
            if cur.len() > 0 {
                let ghost old_acc = seqs_of(acc);
                let done = cur;
                let ghost done_view = done@;
                acc.push(done);
                cur = Vec::new();
                proof {
                    assert(seqs_of(acc) =~= old_acc.push(done_view));
                }
            }
        }
        i = i + 1;
    }
    if cur.len() > 0 {
        let ghost old_acc = seqs_of(acc);
        let done = cur;
        let ghost done_view = done@;
        acc.push(done);
        proof {
            assert(seqs_of(acc) =~= old_acc.push(done_view));
        }
    }
    acc
}

/// The number of whitespace-separated words.
pub fn word_count(s: &[u8]) -> (n: usize)
    ensures
        n == words_of(s@).len(),
{
    let w = split_words(s);
    w.len()
}

pub proof fn lemma_join_snoc(parts: Seq<Seq<u8>>, sep: Seq<u8>, n: int)
    requires
        1 <= n < parts.len(),
    ensures
        join_with(parts.subrange(0, n + 1), sep) == join_with(parts.subrange(0, n), sep) + sep
            + parts[n],
    decreases n,
{
    let p1 = parts.subrange(0, n + 1);
    let p0 = parts.subrange(0, n);
    if n == 1 {
        assert(p1 =~= seq![parts[0], parts[1]]);
        assert(p0 =~= seq![parts[0]]);
        assert(p1.subrange(1, 2) =~= seq![parts[1]]);
        assert(join_with(p1, sep) =~= join_with(p0, sep) + sep + parts[n]);
    } else {
        lemma_join_snoc(parts.subrange(1, parts.len() as int), sep, n - 1);
        assert(p1.subrange(1, n + 1) =~= parts.subrange(1, parts.len() as int).subrange(0, n));
        assert(p0.subrange(1, n) =~= parts.subrange(1, parts.len() as int).subrange(0, n - 1));
        assert(parts.subrange(1, parts.len() as int).subrange(0, n - 1) =~= parts.subrange(1, n));
        assert(parts.subrange(1, parts.len() as int).subrange(0, n) =~= parts.subrange(1, n + 1));
        assert(p1.subrange(1, n + 1) =~= parts.subrange(1, n + 1));
        assert(p0.subrange(1, n) =~= parts.subrange(1, n));
        let tail = parts.subrange(1, parts.len() as int);
        assert(p1.len() == n + 1 && n + 1 >= 3);
        assert(join_with(p1, sep) == p1[0] + sep + join_with(p1.subrange(1, n + 1), sep));
        assert(join_with(p0, sep) == p0[0] + sep + join_with(p0.subrange(1, n), sep));
        assert(join_with(p1.subrange(1, n + 1), sep) == join_with(tail.subrange(0, n), sep));
        assert(join_with(p0.subrange(1, n), sep) == join_with(tail.subrange(0, n - 1), sep));
        assert(tail[n - 1] == parts[n]);
        assert(join_with(p1, sep) =~= join_with(p0, sep) + sep + parts[n]);
    }
}

/// Joins byte strings with a separator.
pub fn join_bytes(parts: &Vec<Vec<u8>>, sep: &[u8]) -> (r: Vec<u8>)
    ensures
        r@ == join_with(seqs_of(*parts), sep@),
{
    let mut r: Vec<u8> = Vec::new();
    if parts.len() == 0 {
        return r;
    }
    append_bytes(&mut r, parts[0].as_slice());
    proof {
        assert(seqs_of(*parts).subrange(0, 1) =~= seq![parts@[0]@]);
    }
    let mut i: usize = 1;
    while i < parts.len()
        invariant
            1 <= i <= parts.len(),
            seqs_of(*parts).len() == parts.len(),
            r@ == join_with(seqs_of(*parts).subrange(0, i as int), sep@),
        decreases parts.len() - i,
    {
        append_bytes(&mut r, sep);
        append_bytes(&mut r, parts[i].as_slice());
        proof {
            lemma_join_snoc(seqs_of(*parts), sep@, i as int);
        }
        i = i + 1;
    }
    proof {
        assert(seqs_of(*parts).subrange(0, parts.len() as int) =~= seqs_of(*parts));
        assert(seqs_of(*parts).subrange(0, 1) =~= seq![parts@[0]@]);
    }
    r
}

/// A found index is a real match within bounds.
pub proof fn lemma_find_from_some(s: Seq<u8>, pat: Seq<u8>, j: int, i: int)
    requires
        find_from(s, pat, j) == Some(i),
    ensures
        match_at(s, pat, i),
        j <= i,
    decreases s.len() + 1 - j,
{
    if j + pat.len() > s.len() {
    } else if match_at(s, pat, j) {
    } else {
        lemma_find_from_some(s, pat, j + 1, i);
    }
}

/// The least index at which `pat` occurs in `s`, if any.
pub fn find_bytes(s: &[u8], pat: &[u8]) -> (r: Option<usize>)
    ensures
        match r {
            Some(i) => find_of(s@, pat@) == Some(i as int),
            None => find_of(s@, pat@) is None,
        },
{
    let n = s.len();
    let pl = pat.len();
    if pl > n {
        return None;
    }
    if pl == 0 {
        proof {
            assert(s@.subrange(0, 0) =~= pat@);
        }
        return Some(0);
    }
    let last = n - pl;
    let mut i: usize = 0;
    while i <= last
        invariant
            i <= last + 1,
            n == s@.len(),
            pl == pat@.len(),
            1 <= pl <= n,
            last == n - pl,
            find_from(s@, pat@, 0) == find_from(s@, pat@, i as int),
        decreases last + 1 - i,
    {
        let mut j: usize = 0;
        let mut hit = true;
        while j < pl
            invariant
                j <= pl,
                i <= last,
                n == s@.len(),
                pl == pat@.len(),
                last == n - pl,
                hit ==> forall|k: int| 0 <= k < j ==> s@[i + k] == pat@[k],
                !hit ==> exists|k: int| 0 <= k < pat@.len() && s@[i + k] != pat@[k],
            decreases pl - j,
        {
            if s[i + j] != pat[j] {
                hit = false;
                j = pl;
            } else {
                j = j + 1;
            }
        }
        if hit {
            proof {
                assert(s@.subrange(i as int, i + pat@.len()) =~= pat@);
            }
            return Some(i);
        }
        proof {
            if match_at(s@, pat@, i as int) {
                let k = choose|k: int| 0 <= k < pat@.len() && s@[i + k] != pat@[k];
                assert(s@.subrange(i as int, i + pat@.len())[k] == s@[i + k]);
                assert(false);
            }
        }
        i = i + 1;
    }
    None
}

} // verus!
