use vstd::prelude::*;

use crate::checksum::{le_word, word_sum};
use crate::download::{add_words, image_result, scan};
use crate::error::Error;
use crate::image::{header_result, record_at, Record};

verus! {

/// Whether byte `i` of `s` lies in the data of a segment record at or after
/// byte `c`, walking the records from `c`.
pub open spec fn in_segment_data(s: Seq<u8>, c: int, i: int) -> bool
    decreases s.len() - c,
{
    if c < 0 || c > s.len() {
        false
    } else {
        match record_at(s, c) {
            Ok((Record::Segment { start, len, .. }, next)) => (start <= i < start + len) || (next
                > c && in_segment_data(s, next, i)),
            _ => false,
        }
    }
}

/// Weight of byte `j` of a little-endian word.
spec fn place(j: int) -> int {
    if j == 0 {
        1
    } else if j == 1 {
        0x100
    } else if j == 2 {
        0x1_0000
    } else {
        0x100_0000
    }
}

proof fn lemma_word_sum_update(t: Seq<u8>, k: int, x: u8, n: nat)
    requires
        0 <= k < t.len(),
        4 * n <= t.len(),
    ensures
        word_sum(t.update(k, x), n) - word_sum(t, n) == if k < 4 * n {
            (x - t[k]) * place(k % 4)
        } else {
            0
        },
    decreases n,
{
    if n > 0 {
        let m = (n - 1) as nat;
        lemma_word_sum_update(t, k, x, m);
        let t2 = t.update(k, x);
        let b: int = 4 * m as int;
        assert(t2[b] == if k == b { x } else { t[b] });
        assert(t2[b + 1] == if k == b + 1 { x } else { t[b + 1] });
        assert(t2[b + 2] == if k == b + 2 { x } else { t[b + 2] });
        assert(t2[b + 3] == if k == b + 3 { x } else { t[b + 3] });
        if b <= k < b + 4 {
            assert(k % 4 == k - b) by {
                vstd::arithmetic::div_mod::lemma_fundamental_div_mod_converse(
                    k,
                    4,
                    m as int,
                    k - b,
                );
            }
        }
    }
}

proof fn lemma_mod_shift_differs(a: int, w: int, d: int)
    requires
        0 < d < 0x1_0000_0000 || -0x1_0000_0000 < d < 0,
    ensures
        (a + w) % 0x1_0000_0000 != (a + w + d) % 0x1_0000_0000,
{
    let m: int = 0x1_0000_0000;
    let p = a + w;
    let q = a + w + d;
    vstd::arithmetic::div_mod::lemma_fundamental_div_mod(p, m);
    vstd::arithmetic::div_mod::lemma_fundamental_div_mod(q, m);
    if p % m == q % m {
        let k = q / m - p / m;
        assert(d == m * k) by (nonlinear_arith)
            requires
                p == m * (p / m) + p % m,
                q == m * (q / m) + q % m,
                p % m == q % m,
                d == q - p,
                k == q / m - p / m,
        ;
        assert(false) by (nonlinear_arith)
            requires
                d == m * k,
                m == 0x1_0000_0000,
                0 < d < m || -m < d < 0,
        ;
    }
}

proof fn lemma_distinct_sums_stay_distinct(a: u32, a2: u32, w: int)
    requires
        a != a2,
    ensures
        (a + w) % 0x1_0000_0000 != (a2 + w) % 0x1_0000_0000,
{
    lemma_mod_shift_differs(a + 0, w, a2 - a);
}

/// Bytes from `c` on are the same in `s` and `s2`.
spec fn same_from(s: Seq<u8>, s2: Seq<u8>, c: int) -> bool {
    s.len() == s2.len() && forall|j: int| c <= j < s.len() ==> s[j] == s2[j]
}

proof fn lemma_record_same(s: Seq<u8>, s2: Seq<u8>, c: int)
    requires
        0 <= c <= s.len(),
        s.len() <= usize::MAX,
        same_from(s, s2, c),
    ensures
        record_at(s2, c) == record_at(s, c),
        record_at(s, c) matches Ok((Record::Segment { start, len, .. }, _)) ==> s2.subrange(
            start as int,
            start + len,
        ) == s.subrange(start as int, start + len),
{
    if c + 4 <= s.len() {
        assert(le_word(s2, c) == le_word(s, c));
    }
    if c + 8 <= s.len() {
        assert(le_word(s2, c + 4) == le_word(s, c + 4));
    }
    if c + 12 <= s.len() {
        assert(le_word(s2, c + 8) == le_word(s, c + 8));
    }
    if let Ok((Record::Segment { start, len, .. }, _)) = record_at(s, c) {
        assert(start == c + 8 && start + len <= s.len());
        assert forall|j: int| 0 <= j < len implies #[trigger] s2.subrange(
            start as int,
            start + len,
        )[j] == s.subrange(start as int, start + len)[j] by {
            assert(s2[start + j] == s[start + j]);
        }
        assert(s2.subrange(start as int, start + len) =~= s.subrange(start as int, start + len));
    }
}

/// Once the running sums differ, over records that are the same, the image
/// fails its checksum.
proof fn lemma_after_change(s: Seq<u8>, s2: Seq<u8>, c: int, a: u32, a2: u32)
    requires
        0 <= c,
        s.len() <= usize::MAX,
        same_from(s, s2, c),
        scan(s, c, a) is Ok,
        a != a2,
    ensures
        scan(s2, c, a2) == Err::<u32, Error>(Error::InvalidChecksum),
    decreases s.len() - c,
{
    lemma_record_same(s, s2, c);
    if let Ok((Record::Segment { start, len, .. }, next)) = record_at(s, c) {
        let w = word_sum(s.subrange(start as int, start + len), (len / 4) as nat);
        lemma_distinct_sums_stay_distinct(a, a2, w);
        lemma_after_change(s, s2, next, add_words(a, s, start as int, len as int), add_words(a2, s2, start as int, len as int));
    }
}

proof fn lemma_before_change(s: Seq<u8>, c: int, a: u32, i: int, x: u8)
    requires
        0 <= c,
        s.len() <= usize::MAX,
        scan(s, c, a) is Ok,
        in_segment_data(s, c, i),
        x != s[i],
    ensures
        c + 8 <= i < s.len(),
        scan(s.update(i, x), c, a) == Err::<u32, Error>(Error::InvalidChecksum),
    decreases s.len() - c,
{
    let s2 = s.update(i, x);
    if let Ok((Record::Segment { start, len, .. }, next)) = record_at(s, c) {
        if start <= i < start + len {
            assert(record_at(s2, c) == record_at(s, c)) by {
                assert(start == c + 8);
                assert(s2[c] == s[c] && s2[c + 1] == s[c + 1] && s2[c + 2] == s[c + 2] && s2[c + 3] == s[c + 3]);
                assert(s2[c + 4] == s[c + 4] && s2[c + 5] == s[c + 5] && s2[c + 6] == s[c + 6] && s2[c + 7] == s[c + 7]);
                assert(le_word(s2, c) == le_word(s, c));
                assert(le_word(s2, c + 4) == le_word(s, c + 4));
            }
            let t = s.subrange(start as int, start + len);
            let t2 = s2.subrange(start as int, start + len);
            assert(t2 =~= t.update(i - start, x));
            let n = (len / 4) as nat;
            lemma_word_sum_update(t, i - start, x, n);
            let d = (x - s[i]) * place((i - start) % 4);
            let j = (i - start) % 4;
            assert(0 <= j < 4);
            assert(0 < d < 0x1_0000_0000 || -0x1_0000_0000 < d < 0) by {
                if j == 0 {
                } else if j == 1 {
                } else if j == 2 {
                } else {
                }
            }
            lemma_mod_shift_differs(a + 0, word_sum(t, n), d);
            assert(same_from(s, s2, next));
            lemma_after_change(
                s,
                s2,
                next,
                add_words(a, s, start as int, len as int),
                add_words(a, s2, start as int, len as int),
            );
        } else {
            lemma_before_change(s, next, add_words(a, s, start as int, len as int), i, x);
            assert(start == c + 8 && i >= next + 8);
            assert(s2[c] == s[c] && s2[c + 1] == s[c + 1] && s2[c + 2] == s[c + 2] && s2[c + 3] == s[c + 3]);
            assert(s2[c + 4] == s[c + 4] && s2[c + 5] == s[c + 5] && s2[c + 6] == s[c + 6] && s2[c + 7] == s[c + 7]);
            assert(record_at(s2, c) == record_at(s, c));
            assert(s2.subrange(start as int, start + len) =~= s.subrange(start as int, start + len));
        }
    }
}

/// Changing any one byte of segment data (flipping one of its bits, for
/// instance) in an image that downloads without the stored checksum being
/// changed too makes the download fail with `InvalidChecksum`.
pub proof fn lemma_changed_data_fails_checksum(s: Seq<u8>, i: int, x: u8)
    requires
        s.len() <= usize::MAX,
        image_result(s) is Ok,
        in_segment_data(s, 4, i),
        x != s[i],
    ensures
        image_result(s.update(i, x)) == Err::<u32, Error>(Error::InvalidChecksum),
{
    lemma_before_change(s, 4, 0, i, x);
    let s2 = s.update(i, x);
    assert(s2[0] == s[0] && s2[1] == s[1] && s2[2] == s[2] && s2[3] == s[3]);
    assert(header_result(s2) == header_result(s));
}

} // verus!
