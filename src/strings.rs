//! Text helpers: the code-point order on strings and splitting on ASCII
//! whitespace.

use vstd::prelude::*;

verus! {

/// `a` sorts before `b` when compared code point by code point, a proper
/// prefix sorting first (the order of `str`'s `Ord`).
pub open spec fn str_lt(a: Seq<char>, b: Seq<char>) -> bool {
    exists|i: int| #[trigger] str_lt_at(a, b, i)
}

/// `a` and `b` agree before `i`, and at `i` either `a` ends while `b` goes on
/// or `a` holds the smaller code point.
pub open spec fn str_lt_at(a: Seq<char>, b: Seq<char>, i: int) -> bool {
    &&& 0 <= i <= a.len()
    &&& i < b.len()
    &&& a.take(i) == b.take(i)
    &&& (i == a.len() || a[i] < b[i])
}

proof fn lemma_take_agree(a: Seq<char>, b: Seq<char>, i: int, j: int)
    requires
        0 <= j <= i <= a.len(),
        i <= b.len(),
        a.take(i) == b.take(i),
    ensures
        a.take(j) == b.take(j),
        forall|k: int| 0 <= k < i ==> a[k] == b[k],
{
    assert forall|k: int| 0 <= k < i implies a[k] == b[k] by {
        assert(a.take(i)[k] == a[k]);
        assert(b.take(i)[k] == b[k]);
    }
    assert(a.take(j) =~= b.take(j));
}

/// No string sorts before itself.
pub proof fn lemma_str_lt_irreflexive(a: Seq<char>)
    ensures
        !str_lt(a, a),
{
}

/// The order is transitive.
pub proof fn lemma_str_lt_transitive(a: Seq<char>, b: Seq<char>, c: Seq<char>)
    requires
        str_lt(a, b),
        str_lt(b, c),
    ensures
        str_lt(a, c),
{
    let i = choose|i: int| str_lt_at(a, b, i);
    let j = choose|j: int| str_lt_at(b, c, j);
    if i < j {
        lemma_take_agree(b, c, j, i);
        lemma_take_agree(a, b, i, i);
        assert(a.take(i) =~= c.take(i));
        assert(str_lt_at(a, c, i));
    } else if j < i {
        lemma_take_agree(a, b, i, j);
        lemma_take_agree(b, c, j, j);
        assert(a[j] == b[j]);
        assert(a.take(j) =~= c.take(j));
        assert(str_lt_at(a, c, j));
    } else {
        assert(a.take(i) =~= c.take(i));
        assert(str_lt_at(a, c, i));
    }
}

proof fn lemma_first_diff(a: Seq<char>, b: Seq<char>, n: int)
    requires
        0 <= n <= a.len(),
        n <= b.len(),
    ensures
        (forall|k: int| 0 <= k < n ==> a[k] == b[k]) || (exists|k: int|
            0 <= k < n && a[k] != b[k] && forall|m: int| 0 <= m < k ==> a[m] == b[m]),
    decreases n,
{
    if n > 0 {
        lemma_first_diff(a, b, n - 1);
        if forall|k: int| 0 <= k < n - 1 ==> a[k] == b[k] {
            if a[n - 1] != b[n - 1] {
                assert(0 <= n - 1 < n && a[n - 1] != b[n - 1] && forall|m: int| 0 <= m < n - 1 ==> a[m] == b[m]);
            }
        }
    }
}

/// Of two different strings one sorts before the other.
pub proof fn lemma_str_lt_total(a: Seq<char>, b: Seq<char>)
    requires
        a != b,
    ensures
        str_lt(a, b) || str_lt(b, a),
{
    let n = if a.len() < b.len() { a.len() } else { b.len() };
    lemma_first_diff(a, b, n as int);
    if forall|k: int| 0 <= k < n ==> a[k] == b[k] {
        assert(a.take(n as int) =~= b.take(n as int));
        if a.len() < b.len() {
            assert(str_lt_at(a, b, n as int));
        } else if b.len() < a.len() {
            assert(str_lt_at(b, a, n as int));
        } else {
            assert(a =~= b);
        }
    } else {
        let k = choose|k: int| 0 <= k < n && a[k] != b[k] && forall|m: int| 0 <= m < k ==> a[m] == b[m];
        assert forall|m: int| 0 <= m < k implies a.take(k)[m] == b.take(k)[m] by {
            assert(a[m] == b[m]);
        }
        assert(a.take(k) =~= b.take(k));
        if a[k] < b[k] {
            assert(str_lt_at(a, b, k));
        } else {
            assert(str_lt_at(b, a, k));
        }
    }
}

/// Tells whether `a` sorts before `b`.
pub fn str_less(a: &str, b: &str) -> (r: bool)
    ensures
        r == str_lt(a@, b@),
{
    let la = a.unicode_len();
    let lb = b.unicode_len();
    let mut i: usize = 0;
    while i < la && i < lb
        invariant
            la == a@.len(),
            lb == b@.len(),
            i <= la,
            i <= lb,
            forall|k: int| 0 <= k < i ==> a@[k] == b@[k],
        decreases la - i,
    {
        let ca = a.get_char(i);
        let cb = b.get_char(i);
        if ca != cb {
            proof {
                assert(a@.take(i as int) =~= b@.take(i as int));
                if ca < cb {
                    assert(str_lt_at(a@, b@, i as int));
                } else {
                    assert forall|j: int| !str_lt_at(a@, b@, j) by {
                        if str_lt_at(a@, b@, j) {
                            if j < i {
                                lemma_take_agree(a@, b@, j, j);
                                assert(a@[j] == b@[j]);
                            } else if j > i {
                                lemma_take_agree(a@, b@, j, j);
                            } else {
                                assert(ca != cb);
                            }
                        }
                    }
                }
            }
            return ca < cb;
        }
        i = i + 1;
    }
    proof {
        assert(a@.take(i as int) =~= b@.take(i as int));
        if la < lb {
            assert(str_lt_at(a@, b@, i as int));
        } else {
            assert forall|j: int| !str_lt_at(a@, b@, j) by {
                if str_lt_at(a@, b@, j) {
                    lemma_take_agree(a@, b@, j, j);
                    if j < i {
                        assert(a@[j] == b@[j]);
                    }
                }
            }
        }
    }
    la < lb
}

/// The characters that `char::is_ascii_whitespace` accepts: space, tab, line
/// feed, form feed and carriage return.
pub open spec fn is_ascii_ws(c: char) -> bool {
    c == ' ' || c == '\t' || c == '\n' || c == '\x0C' || c == '\r'
}

/// The maximal runs of characters other than ASCII whitespace, in order.
pub open spec fn ws_tokens(s: Seq<char>) -> Seq<Seq<char>>
    decreases s.len(),
{
    if s.len() == 0 {
        seq![]
    } else {
        let r = ws_tokens(s.drop_last());
        let c = s.last();
        if is_ascii_ws(c) {
            r
        } else if s.len() >= 2 && !is_ascii_ws(s[s.len() - 2]) {
            r.update(r.len() - 1, r.last().push(c))
        } else {
            r.push(seq![c])
        }
    }
}

fn is_ascii_whitespace(c: char) -> (r: bool)
    ensures
        r == is_ascii_ws(c),
{
    c == ' ' || c == '\t' || c == '\n' || c == '\x0C' || c == '\r'
}

proof fn lemma_tokens_nonempty_tail(s: Seq<char>)
    requires
        s.len() > 0,
        !is_ascii_ws(s.last()),
    ensures
        ws_tokens(s).len() > 0,
        ws_tokens(s).last().len() > 0,
    decreases s.len(),
{
    let r = ws_tokens(s.drop_last());
    if s.len() >= 2 && !is_ascii_ws(s[s.len() - 2]) {
        assert(s.drop_last().last() == s[s.len() - 2]);
        lemma_tokens_nonempty_tail(s.drop_last());
    }
}

/// The tokens of `s` split on ASCII whitespace, in order.
pub fn split_ascii_whitespace(s: &str) -> (r: Vec<String>)
    ensures
        r@.map_values(|t: String| t@) == ws_tokens(s@),
{
    let n = s.unicode_len();
    let mut out: Vec<String> = Vec::new();
    let mut start: usize = 0;
    let mut i: usize = 0;
    proof { assert(s@.take(0) =~= Seq::<char>::empty()); }
    while i < n
        invariant
            n == s@.len(),
            start <= i <= n,
            start == i ==> (i == 0 || is_ascii_ws(s@[i - 1])),
            start < i ==> !is_ascii_ws(s@[i - 1]),
            forall|k: int| start <= k < i ==> !is_ascii_ws(#[trigger] s@[k]),
            ({
                let done = out@.map_values(|t: String| t@);
                if start == i {
                    done == ws_tokens(s@.take(i as int))
                } else {
                    done.push(s@.subrange(start as int, i as int)) == ws_tokens(s@.take(i as int))
                }
            }),
        decreases n - i,
    {
        let c = s.get_char(i);
        let ghost pre = s@.take(i as int);
        let ghost cur = s@.take(i as int + 1);
        proof {
            assert(cur.drop_last() =~= pre);
            assert(cur.last() == c);
        }
        if is_ascii_whitespace(c) {
            if start < i {
                let t = String::from_str(s.substring_char(start, i));
                let ghost before = out@;
                out.push(t);
                proof {
                    assert(out@.map_values(|t: String| t@) =~= before.map_values(|t: String| t@).push(t@));
                }
            }
            start = i + 1;
        } else {
            proof {
                if start < i {
                    assert(cur[cur.len() - 2] == s@[i - 1]);
                    assert(s@.subrange(start as int, i as int).push(c) =~= s@.subrange(start as int, i as int + 1));
                } else {
                    if i > 0 {
                        assert(cur[cur.len() - 2] == s@[i - 1]);
                    }
                    assert(seq![c] =~= s@.subrange(i as int, i as int + 1));
                }
            }
        }
        i = i + 1;
    }
    if start < n {
        let t = String::from_str(s.substring_char(start, n));
        let ghost before = out@;
        out.push(t);
        proof {
            assert(out@.map_values(|t: String| t@) =~= before.map_values(|t: String| t@).push(t@));
        }
    }
    proof { assert(s@.take(n as int) =~= s@); }
    out
}

/// Tells whether `a` and `b` hold the same characters.
pub fn str_eq(a: &str, b: &str) -> (r: bool)
    ensures
        r == (a@ == b@),
{
    let la = a.unicode_len();
    let lb = b.unicode_len();
    if la != lb {
        return false;
    }
    let mut i: usize = 0;
    while i < la
        invariant
            la == a@.len(),
            lb == b@.len(),
            la == lb,
            i <= la,
            forall|k: int| 0 <= k < i ==> a@[k] == b@[k],
        decreases la - i,
    {
        if a.get_char(i) != b.get_char(i) {
            return false;
        }
        i = i + 1;
    }
    proof { assert(a@ =~= b@); }
    true
}

/// Equal, or the same ASCII letter in two cases.
pub open spec fn ascii_case_eq(x: char, y: char) -> bool {
    x == y || ('A' <= x <= 'Z' && (y as u32) == (x as u32) + 32) || ('A' <= y <= 'Z' && (x as u32) == (y as u32) + 32)
}

/// Equal when ASCII letters are compared without regard to case.
pub open spec fn eq_ignore_ascii_case(a: Seq<char>, b: Seq<char>) -> bool {
    a.len() == b.len() && forall|i: int| 0 <= i < a.len() ==> ascii_case_eq(#[trigger] a[i], b[i])
}

fn char_case_eq(x: char, y: char) -> (r: bool)
    ensures
        r == ascii_case_eq(x, y),
{
    x == y || ('A' <= x && x <= 'Z' && (y as u32) == (x as u32) + 32) || ('A' <= y && y <= 'Z' && (x as u32) == (y as u32) + 32)
}

/// Compares `a` and `b` with or without regard to ASCII case.
pub fn str_eq_case(a: &str, b: &str, case_sensitive: bool) -> (r: bool)
    ensures
        r == (if case_sensitive { a@ == b@ } else { eq_ignore_ascii_case(a@, b@) }),
{
    if case_sensitive {
        return str_eq(a, b);
    }
    let la = a.unicode_len();
    let lb = b.unicode_len();
    if la != lb {
        return false;
    }
    let mut i: usize = 0;
    while i < la
        invariant
            la == a@.len(),
            lb == b@.len(),
            la == lb,
            i <= la,
            forall|k: int| 0 <= k < i ==> ascii_case_eq(#[trigger] a@[k], b@[k]),
        decreases la - i,
    {
        if !char_case_eq(a.get_char(i), b.get_char(i)) {
            return false;
        }
        i = i + 1;
    }
    true
}

} // verus!
