//! Text operations on character sequences, with their mathematical models.
use vstd::prelude::*;

verus! {

/// The view of an optional string.
pub open spec fn opt_view(o: Option<String>) -> Option<Seq<char>> {
    match o {
        Some(s) => Some(s@),
        None => None,
    }
}

/// `p` occurs in `s` starting at position `i`.
pub open spec fn occurs_at(s: Seq<char>, p: Seq<char>, i: int) -> bool {
    0 <= i && i + p.len() <= s.len() && s.subrange(i, i + p.len()) == p
}

/// `p` occurs somewhere in `s` (the empty sequence occurs in every sequence).
pub open spec fn contains_seq(s: Seq<char>, p: Seq<char>) -> bool {
    exists|i: int| occurs_at(s, p, i)
}

/// Tests whether `p` occurs in `s`.
pub fn contains_text(s: &str, p: &str) -> (res: bool)
    ensures
        res == contains_seq(s@, p@),
{
    let n = s.unicode_len();
    let m = p.unicode_len();
    if m > n {
        assert forall|i: int| !occurs_at(s@, p@, i) by {}
        return false;
    }
    let last = n - m;
    let mut i: usize = 0;
    loop
        invariant_except_break
            m == p@.len(),
            n == s@.len(),
            last == n - m,
            i <= last,
            forall|k: int| 0 <= k < i ==> !occurs_at(s@, p@, k),
        ensures
            forall|k: int| 0 <= k <= last ==> !occurs_at(s@, p@, k),
        decreases last - i,
    {
        let mut j: usize = 0;
        let mut same = true;
        while j < m
            invariant
                m == p@.len(),
                n == s@.len(),
                i + m <= n,
                j <= m,
                same ==> forall|t: int| 0 <= t < j ==> s@[i + t] == p@[t],
                !same ==> !occurs_at(s@, p@, i as int),
            decreases m - j,
        {
            if same && s.get_char(i + j) != p.get_char(j) {
                assert(s@.subrange(i as int, i + m)[j as int] == s@[i + j]);
                same = false;
            }
            j = j + 1;
        }
        if same {
            assert(s@.subrange(i as int, i + m) =~= p@);
            assert(occurs_at(s@, p@, i as int));
            return true;
        }
        if i == last {
            break;
        }
        i = i + 1;
    }
    assert forall|k: int| !occurs_at(s@, p@, k) by {
        if 0 <= k <= last {
        }
    }
    false
}

/// The digits `0` to `9`.
pub open spec fn digit_chars() -> Seq<char> {
    seq!['0', '1', '2', '3', '4', '5', '6', '7', '8', '9']
}

/// The decimal notation of `n`, without leading zeros.
pub open spec fn decimal(n: nat) -> Seq<char>
    decreases n,
{
    if n < 10 {
        seq![digit_chars()[n as int]]
    } else {
        decimal(n / 10).push(digit_chars()[(n % 10) as int])
    }
}

/// The number that a sequence of decimal digits denotes.
pub open spec fn digits_value(s: Seq<char>) -> int
    decreases s.len(),
{
    if s.len() == 0 {
        0
    } else {
        digits_value(s.drop_last()) * 10 + (s.last() as int - 48)
    }
}

/// The decimal notation of `n` is made of digits only, has no leading zero
/// (unless `n` is zero), and denotes `n`.
pub proof fn lemma_decimal_denotes(n: nat)
    ensures
        digits_value(decimal(n)) == n,
        decimal(n).len() > 0,
        forall|i: int| 0 <= i < decimal(n).len() ==> 48 <= #[trigger] decimal(n)[i] as int <= 57,
        n > 0 ==> decimal(n)[0] != '0',
    decreases n,
{
    let d = (n % 10) as int;
    assert(digit_chars()[d] as int == 48 + d) by {
        if d == 0 {} else if d == 1 {} else if d == 2 {} else if d == 3 {} else if d == 4 {}
        else if d == 5 {} else if d == 6 {} else if d == 7 {} else if d == 8 {} else {}
    }
    let s = decimal(n);
    if n < 10 {
        assert(s.drop_last() =~= Seq::<char>::empty());
        assert(digits_value(s) == digits_value(s.drop_last()) * 10 + (s.last() as int - 48));
    }
    if n >= 10 {
        lemma_decimal_denotes(n / 10);
        assert(s.drop_last() == decimal(n / 10));
        assert(s.last() == digit_chars()[d]);
        assert(digits_value(s) == digits_value(s.drop_last()) * 10 + (s.last() as int - 48));
        assert((n / 10) * 10 + n % 10 == n);
        assert forall|i: int| 0 <= i < s.len() implies 48 <= #[trigger] s[i] as int <= 57 by {
            if i < s.len() - 1 {
                assert(s[i] == decimal(n / 10)[i]);
            }
        }
        assert(s[0] == decimal(n / 10)[0]);
    }
}

/// Appends the decimal notation of `n` to `out`.
pub fn push_decimal(out: &mut String, n: u64)
    ensures
        final(out)@ == old(out)@ + decimal(n as nat),
    decreases n,
{
    if n >= 10 {
        push_decimal(out, n / 10);
    }
    let d: usize = (n % 10) as usize;
    let digits = "0123456789";
    proof {
        reveal_strlit("0123456789");
    }
    assert(digits@ =~= digit_chars());
    let c = digits.substring_char(d, d + 1);
    assert(c@ =~= seq![digit_chars()[d as int]]);
    let ghost before = out@;
    out.append(c);
    if n >= 10 {
        assert(out@ =~= old(out)@ + decimal(n as nat));
    } else {
        assert(out@ =~= old(out)@ + decimal(n as nat));
    }
}

/// The decimal notation of `n`.
pub fn decimal_text(n: u64) -> (res: String)
    ensures
        res@ == decimal(n as nat),
{
    let mut out = String::new();
    push_decimal(&mut out, n);
    assert(out@ =~= decimal(n as nat));
    out
}

/// The elements of `list` with `sep` between each two neighbours.
pub open spec fn join_seqs(list: Seq<Seq<char>>, sep: Seq<char>) -> Seq<char>
    decreases list.len(),
{
    if list.len() == 0 {
        seq![]
    } else if list.len() == 1 {
        list[0]
    } else {
        join_seqs(list.drop_last(), sep) + sep + list.last()
    }
}

/// An occurrence in `a` is an occurrence in `a + b` and `b + a`, shifted.
pub proof fn lemma_occurs_in_concat(a: Seq<char>, b: Seq<char>, p: Seq<char>, i: int)
    requires
        occurs_at(a, p, i),
    ensures
        occurs_at(a + b, p, i),
        occurs_at(b + a, p, i + b.len()),
{
    assert((a + b).subrange(i, i + p.len()) =~= a.subrange(i, i + p.len()));
    assert((b + a).subrange(i + b.len(), i + b.len() + p.len()) =~= a.subrange(i, i + p.len()));
}

/// Every element of a list occurs in the list joined with any separator.
pub proof fn lemma_join_holds_every_element(list: Seq<Seq<char>>, sep: Seq<char>)
    ensures
        forall|k: int| 0 <= k < list.len() ==> contains_seq(join_seqs(list, sep), #[trigger] list[k]),
    decreases list.len(),
{
    if list.len() == 1 {
        assert(occurs_at(list[0], list[0], 0)) by {
            assert(list[0].subrange(0, list[0].len() as int) =~= list[0]);
        }
    } else if list.len() > 1 {
        let front = list.drop_last();
        lemma_join_holds_every_element(front, sep);
        let head = join_seqs(front, sep) + sep;
        assert forall|k: int| 0 <= k < list.len() implies contains_seq(join_seqs(list, sep), #[trigger] list[k]) by {
            if k < list.len() - 1 {
                assert(front[k] == list[k]);
                let i = choose|i: int| occurs_at(join_seqs(front, sep), list[k], i);
                lemma_occurs_in_concat(join_seqs(front, sep), sep, list[k], i);
                lemma_occurs_in_concat(join_seqs(front, sep) + sep, list.last(), list[k], i);
                assert(join_seqs(list, sep) == join_seqs(front, sep) + sep + list.last());
            } else {
                let last = list.last();
                assert(occurs_at(last, last, 0)) by {
                    assert(last.subrange(0, last.len() as int) =~= last);
                }
                lemma_occurs_in_concat(last, head, last, 0);
            }
        }
    }
}

/// The views of a list of strings.
pub open spec fn views(list: Seq<String>) -> Seq<Seq<char>> {
    list.map_values(|s: String| s@)
}

/// Joins the strings of `list` with `sep` between each two neighbours.
pub fn join_texts(list: &Vec<String>, sep: &str) -> (res: String)
    ensures
        res@ == join_seqs(views(list@), sep@),
{
    let mut res = String::new();
    let ghost all = views(list@);
    let mut i: usize = 0;
    while i < list.len()
        invariant
            all == views(list@),
            i <= list.len(),
            res@ == join_seqs(all.take(i as int), sep@),
        decreases list.len() - i,
    {
        assert(all.take(i + 1).drop_last() =~= all.take(i as int));
        if i != 0 {
            res.append(sep);
        }
        res.append(list[i].as_str());
        assert(res@ =~= join_seqs(all.take(i + 1), sep@));
        i = i + 1;
    }
    assert(all.take(list.len() as int) =~= all);
    res
}


/// `a` and `b` agree on their first `k` characters.
pub open spec fn agree_before(a: Seq<char>, b: Seq<char>, k: int) -> bool {
    0 <= k <= a.len() && k <= b.len() && forall|j: int| 0 <= j < k ==> a[j] == b[j]
}

/// `a` comes strictly before `b` when they first part at position `k`.
pub open spec fn parts_lower_at(a: Seq<char>, b: Seq<char>, k: int) -> bool {
    &&& agree_before(a, b, k)
    &&& k < b.len()
    &&& (k == a.len() || (a[k] as int) < (b[k] as int))
}

/// Lexicographic order of character sequences by code point, the order of
/// `String`: `a` comes strictly before `b`.
pub open spec fn text_lt(a: Seq<char>, b: Seq<char>) -> bool {
    exists|k: int| parts_lower_at(a, b, k)
}

/// No sequence comes before itself.
pub proof fn lemma_text_lt_irreflexive(a: Seq<char>)
    ensures
        !text_lt(a, a),
{
}

/// Of two sequences, at most one comes before the other.
pub proof fn lemma_text_lt_asymmetric(a: Seq<char>, b: Seq<char>)
    requires
        text_lt(a, b),
    ensures
        !text_lt(b, a),
{
    let k1 = choose|k: int| parts_lower_at(a, b, k);
    if text_lt(b, a) {
        let k2 = choose|k: int| parts_lower_at(b, a, k);
        if k1 < k2 {
            assert(a[k1] == b[k1]);
        } else if k2 < k1 {
            assert(a[k2] == b[k2]);
        }
    }
}

/// The order is transitive.
pub proof fn lemma_text_lt_transitive(a: Seq<char>, b: Seq<char>, c: Seq<char>)
    requires
        text_lt(a, b),
        text_lt(b, c),
    ensures
        text_lt(a, c),
{
    let k1 = choose|k: int| parts_lower_at(a, b, k);
    let k2 = choose|k: int| parts_lower_at(b, c, k);
    if k1 <= k2 {
        if k1 < k2 {
            assert(b[k1] == c[k1]);
        }
        assert(parts_lower_at(a, c, k1));
    } else {
        assert(a[k2] == b[k2]);
        assert(parts_lower_at(a, c, k2));
    }
}

/// Of two different sequences, one comes before the other.
pub proof fn lemma_text_lt_total(a: Seq<char>, b: Seq<char>)
    ensures
        a == b || text_lt(a, b) || text_lt(b, a),
    decreases a.len(),
{
    if a.len() == 0 || b.len() == 0 {
        if a.len() < b.len() {
            assert(parts_lower_at(a, b, 0));
        } else if b.len() < a.len() {
            assert(parts_lower_at(b, a, 0));
        } else {
            assert(a =~= b);
        }
    } else if a[0] != b[0] {
        if (a[0] as int) < (b[0] as int) {
            assert(parts_lower_at(a, b, 0));
        } else {
            assert(parts_lower_at(b, a, 0));
        }
    } else {
        let (x, y) = (a.drop_first(), b.drop_first());
        lemma_text_lt_total(x, y);
        if x == y {
            assert(a =~= b) by {
                assert(a.len() == b.len());
                assert forall|j: int| 0 <= j < a.len() implies a[j] == b[j] by {
                    if j > 0 {
                        assert(a[j] == x[j - 1]);
                        assert(b[j] == y[j - 1]);
                        assert(x[j - 1] == y[j - 1]);
                    }
                }
            }
        } else if text_lt(x, y) {
            let k = choose|k: int| parts_lower_at(x, y, k);
            assert forall|j: int| 0 <= j < k + 1 implies a[j] == b[j] by {
                if j > 0 {
                    assert(x[j - 1] == y[j - 1]);
                }
            }
            assert(parts_lower_at(a, b, k + 1));
        } else {
            let k = choose|k: int| parts_lower_at(y, x, k);
            assert forall|j: int| 0 <= j < k + 1 implies b[j] == a[j] by {
                if j > 0 {
                    assert(y[j - 1] == x[j - 1]);
                }
            }
            assert(parts_lower_at(b, a, k + 1));
        }
    }
}

/// The outcome of comparing two texts.
#[derive(PartialEq, Eq, Structural, Clone, Copy, Debug)]
pub enum TextOrder {
    Less,
    Equal,
    Greater,
}

/// Compares two texts in the order of `String`.
pub fn compare_texts(a: &str, b: &str) -> (res: TextOrder)
    ensures
        res == TextOrder::Less <==> text_lt(a@, b@),
        res == TextOrder::Equal <==> a@ == b@,
        res == TextOrder::Greater <==> text_lt(b@, a@),
{
    let n = a.unicode_len();
    let m = b.unicode_len();
    let mut i: usize = 0;
    while i < n && i < m
        invariant
            n == a@.len(),
            m == b@.len(),
            i <= n,
            i <= m,
            agree_before(a@, b@, i as int),
        decreases n - i,
    {
        let x = a.get_char(i);
        let y = b.get_char(i);
        if x != y {
            if (x as u32) < (y as u32) {
                assert(parts_lower_at(a@, b@, i as int));
                proof {
                    lemma_text_lt_asymmetric(a@, b@);
                }
                return TextOrder::Less;
            } else {
                assert(parts_lower_at(b@, a@, i as int));
                proof {
                    lemma_text_lt_asymmetric(b@, a@);
                }
                return TextOrder::Greater;
            }
        }
        i = i + 1;
    }
    if n == m {
        assert(a@ =~= b@);
        proof {
            lemma_text_lt_irreflexive(a@);
        }
        TextOrder::Equal
    } else if n < m {
        assert(parts_lower_at(a@, b@, i as int));
        proof {
            lemma_text_lt_asymmetric(a@, b@);
        }
        TextOrder::Less
    } else {
        assert(parts_lower_at(b@, a@, i as int));
        proof {
            lemma_text_lt_asymmetric(b@, a@);
        }
        TextOrder::Greater
    }
}

} // verus!
