//! Character-level string helpers shared by the parsers, the rule lookup and
//! the report renderers. Every helper is specified over `Seq<char>` views.
use vstd::prelude::*;

verus! {

/// `true` when both strings hold the same characters.
pub fn str_eq(a: &str, b: &str) -> (r: bool)
    ensures
        r == (a@ == b@),
{
    let sa = a.to_owned();
    let sb = b.to_owned();
    sa == sb
}

/// An owned copy of `s`.
pub fn owned(s: &str) -> (r: String)
    ensures
        r@ == s@,
{
    String::from_str(s)
}

/// `a` followed by `b`.
pub fn cat(a: &str, b: &str) -> (r: String)
    ensures
        r@ == a@ + b@,
{
    let mut r = String::from_str(a);
    r.append(b);
    r
}

/// `a`, `b` and `c` in order.
pub fn cat3(a: &str, b: &str, c: &str) -> (r: String)
    ensures
        r@ == a@ + b@ + c@,
{
    let mut r = String::from_str(a);
    r.append(b);
    r.append(c);
    r
}

/// The characters of `s` in a vector.
pub fn chars_of(s: &str) -> (v: Vec<char>)
    ensures
        v@ == s@,
{
    let n = s.unicode_len();
    let mut v: Vec<char> = Vec::new();
    let mut i: usize = 0;
    while i < n
        invariant
            n == s@.len(),
            i <= n,
            v@ == s@.subrange(0, i as int),
        decreases n - i,
    {
        let c = s.get_char(i);
        v.push(c);
        i = i + 1;
        proof {
            assert(v@ =~= s@.subrange(0, i as int));
        }
    }
    proof {
        assert(v@ =~= s@);
    }
    v
}

/// The characters `s[from..to]` as an owned string.
pub fn substring(s: &str, from: usize, to: usize) -> (r: String)
    requires
        from <= to <= s@.len(),
    ensures
        r@ == s@.subrange(from as int, to as int),
{
    s.substring_char(from, to).to_owned()
}

/// Whether `p` is a prefix of `s`.
pub open spec fn is_prefix(p: Seq<char>, s: Seq<char>) -> bool {
    p.len() <= s.len() && s.subrange(0, p.len() as int) == p
}

/// Whether `p` is a suffix of `s`.
pub open spec fn is_suffix(p: Seq<char>, s: Seq<char>) -> bool {
    p.len() <= s.len() && s.subrange(s.len() - p.len(), s.len() as int) == p
}

/// Whether `p` occurs in `s` at position `i`.
pub open spec fn occurs_at(s: Seq<char>, p: Seq<char>, i: int) -> bool {
    0 <= i && i + p.len() <= s.len() && s.subrange(i, i + p.len()) == p
}

/// Whether `p` occurs anywhere in `s`.
pub open spec fn contains_seq(s: Seq<char>, p: Seq<char>) -> bool {
    exists|i: int| occurs_at(s, p, i)
}

/// Does `s` start with `p`?
pub fn starts_with(s: &str, p: &str) -> (r: bool)
    ensures
        r == is_prefix(p@, s@),
{
    let sv = chars_of(s);
    let pv = chars_of(p);
    seq_starts_with(&sv, &pv)
}

/// Does `s` end with `p`?
pub fn ends_with(s: &str, p: &str) -> (r: bool)
    ensures
        r == is_suffix(p@, s@),
{
    let sv = chars_of(s);
    let pv = chars_of(p);
    if pv.len() > sv.len() {
        return false;
    }
    let off = sv.len() - pv.len();
    let r = slice_matches_at(&sv, &pv, off);
    proof {
        if r {
            assert(sv@.subrange(sv@.len() - pv@.len(), sv@.len() as int) =~= pv@);
        } else {
            assert(!occurs_at(sv@, pv@, off as int));
        }
    }
    r
}

/// Prefix test on character vectors.
pub fn seq_starts_with(sv: &Vec<char>, pv: &Vec<char>) -> (r: bool)
    ensures
        r == is_prefix(pv@, sv@),
{
    if pv.len() > sv.len() {
        return false;
    }
    slice_matches_at(sv, pv, 0)
}

/// Whether `pv` occurs in `sv` at `off`.
pub fn slice_matches_at(sv: &Vec<char>, pv: &Vec<char>, off: usize) -> (r: bool)
    requires
        off + pv@.len() <= sv@.len(),
    ensures
        r == occurs_at(sv@, pv@, off as int),
{
    let n = sv.len();
    let mut j: usize = 0;
    while j < pv.len()
        invariant
            n == sv@.len(),
            off + pv@.len() <= sv@.len(),
            j <= pv@.len(),
            forall|k: int| 0 <= k < j ==> sv@[off + k] == pv@[k],
        decreases pv@.len() - j,
    {
        assert(off + j < sv@.len());
        if sv[off + j] != pv[j] {
            proof {
                assert(sv@.subrange(off as int, off + pv@.len())[j as int] != pv@[j as int]);
            }
            return false;
        }
        j = j + 1;
    }
    proof {
        assert(sv@.subrange(off as int, off + pv@.len()) =~= pv@);
    }
    true
}

/// First position at or after `from` where `pv` occurs in `sv`.
pub fn find_from(sv: &Vec<char>, pv: &Vec<char>, from: usize) -> (r: Option<usize>)
    requires
        from <= sv@.len(),
    ensures
        match r {
            Some(i) => from <= i && occurs_at(sv@, pv@, i as int) && forall|k: int|
                from <= k < i ==> !occurs_at(sv@, pv@, k),
            None => forall|k: int| from <= k ==> !occurs_at(sv@, pv@, k),
        },
{
    if pv.len() > sv.len() {
        return None;
    }
    let last = sv.len() - pv.len();
    if from > last {
        return None;
    }
    let mut i: usize = from;
    loop
        invariant
            from <= i <= last,
            last + pv@.len() == sv@.len(),
            forall|k: int| from <= k < i ==> !occurs_at(sv@, pv@, k),
        decreases last - i,
    {
        if slice_matches_at(sv, pv, i) {
            return Some(i);
        }
        if i == last {
            return None;
        }
        i = i + 1;
    }
}

/// Does `s` contain `p` as a contiguous run of characters?
pub fn contains_str(s: &str, p: &str) -> (r: bool)
    ensures
        r == contains_seq(s@, p@),
{
    let sv = chars_of(s);
    let pv = chars_of(p);
    match find_from(&sv, &pv, 0) {
        Some(_) => true,
        None => false,
    }
}

/// Does `s` contain the character `c`?
pub fn has_char(s: &str, c: char) -> (r: bool)
    ensures
        r == s@.contains(c),
{
    let sv = chars_of(s);
    let mut i: usize = 0;
    while i < sv.len()
        invariant
            sv@ == s@,
            i <= sv@.len(),
            forall|k: int| 0 <= k < i ==> sv@[k] != c,
        decreases sv@.len() - i,
    {
        if sv[i] == c {
            return true;
        }
        i = i + 1;
    }
    false
}

/// The view of every string of a vector.
pub open spec fn views(v: Seq<String>) -> Seq<Seq<char>> {
    v.map_values(|s: String| s@)
}

/// Is `s` one of the strings of `v`?
pub fn vec_has(v: &Vec<String>, s: &str) -> (r: bool)
    ensures
        r == views(v@).contains(s@),
{
    let mut i: usize = 0;
    while i < v.len()
        invariant
            i <= v@.len(),
            forall|k: int| 0 <= k < i ==> v@[k]@ != s@,
        decreases v@.len() - i,
    {
        if str_eq(v[i].as_str(), s) {
            proof {
                assert(views(v@)[i as int] == s@);
            }
            return true;
        }
        i = i + 1;
    }
    proof {
        assert forall|k: int| 0 <= k < views(v@).len() implies views(v@)[k] != s@ by {
            assert(views(v@)[k] == v@[k]@);
        }
    }
    false
}

/// Position of the first string of `v` equal to `s`.
pub fn vec_position(v: &Vec<String>, s: &str) -> (r: Option<usize>)
    ensures
        match r {
            Some(i) => i < v@.len() && v@[i as int]@ == s@ && forall|k: int|
                0 <= k < i ==> v@[k]@ != s@,
            None => forall|k: int| 0 <= k < v@.len() ==> v@[k]@ != s@,
        },
{
    let mut i: usize = 0;
    while i < v.len()
        invariant
            i <= v@.len(),
            forall|k: int| 0 <= k < i ==> v@[k]@ != s@,
        decreases v@.len() - i,
    {
        if str_eq(v[i].as_str(), s) {
            return Some(i);
        }
        i = i + 1;
    }
    None
}

/// Lexicographic order on character sequences (the order of `str`'s `Ord`).
pub open spec fn seq_lt(a: Seq<char>, b: Seq<char>) -> bool
    decreases a.len(),
{
    if a.len() == 0 {
        b.len() > 0
    } else if b.len() == 0 {
        false
    } else if a[0] != b[0] {
        a[0] < b[0]
    } else {
        seq_lt(a.drop_first(), b.drop_first())
    }
}

/// The lexicographic order is a strict total order.
pub proof fn lemma_seq_lt_order(a: Seq<char>, b: Seq<char>)
    ensures
        !seq_lt(a, a),
        seq_lt(a, b) ==> !seq_lt(b, a),
        a != b ==> seq_lt(a, b) || seq_lt(b, a),
    decreases a.len(),
{
    if a.len() > 0 && b.len() > 0 {
        lemma_seq_lt_order(a.drop_first(), b.drop_first());
        lemma_seq_lt_order(a.drop_first(), a.drop_first());
        if a[0] == b[0] && a != b {
            assert(a.drop_first() != b.drop_first()) by {
                if a.drop_first() == b.drop_first() {
                    assert(a =~= seq![a[0]] + a.drop_first());
                    assert(b =~= seq![b[0]] + b.drop_first());
                }
            }
        }
    } else if a.len() > 0 {
        lemma_seq_lt_order(a.drop_first(), a.drop_first());
    } else if b.len() == 0 {
        assert(a =~= b);
    }
}

/// The lexicographic order is transitive.
pub proof fn lemma_seq_lt_trans(a: Seq<char>, b: Seq<char>, c: Seq<char>)
    requires
        seq_lt(a, b),
        seq_lt(b, c),
    ensures
        seq_lt(a, c),
    decreases a.len(),
{
    if a.len() > 0 && b.len() > 0 && c.len() > 0 && a[0] == b[0] && b[0] == c[0] {
        lemma_seq_lt_trans(a.drop_first(), b.drop_first(), c.drop_first());
    }
}

/// Inserting a string before the first one that does not precede it keeps
/// a strictly ascending sequence ascending.
pub proof fn lemma_insert_sorted(secs: Seq<Seq<char>>, x: Seq<char>, p: int)
    requires
        0 <= p <= secs.len(),
        forall|i: int, j: int| 0 <= i < j < secs.len() ==> seq_lt(#[trigger] secs[i], #[trigger] secs[j]),
        forall|q: int| 0 <= q < p ==> seq_lt(#[trigger] secs[q], x),
        p < secs.len() ==> seq_lt(x, secs[p]),
    ensures
        forall|i: int, j: int| 0 <= i < j < secs.insert(p, x).len() ==> seq_lt(#[trigger] secs.insert(p, x)[i], #[trigger] secs.insert(p, x)[j]),
{
    let out = secs.insert(p, x);
    assert forall|i: int, j: int| 0 <= i < j < out.len() implies seq_lt(#[trigger] out[i], #[trigger] out[j]) by {
        if j < p {
            assert(out[i] == secs[i]);
            assert(out[j] == secs[j]);
        } else if j == p {
            assert(out[i] == secs[i]);
        } else if i < p {
            assert(out[j] == secs[j - 1]);
            assert(out[i] == secs[i]);
            if j - 1 == p {
                lemma_seq_lt_trans(secs[i], x, secs[j - 1]);
            } else {
                assert(seq_lt(secs[p], secs[j - 1]));
                lemma_seq_lt_trans(x, secs[p], secs[j - 1]);
                lemma_seq_lt_trans(secs[i], x, secs[j - 1]);
            }
        } else if i == p {
            assert(out[j] == secs[j - 1]);
            if j - 1 > p {
                assert(seq_lt(secs[p], secs[j - 1]));
                lemma_seq_lt_trans(x, secs[p], secs[j - 1]);
            }
        } else {
            assert(out[j] == secs[j - 1]);
            assert(out[i] == secs[i - 1]);
        }
    }
}

/// `ts` is strictly ascending in the lexicographic order.
pub open spec fn ascending(ts: Seq<Seq<char>>) -> bool {
    forall|i: int, j: int| 0 <= i < j < ts.len() ==> seq_lt(#[trigger] ts[i], #[trigger] ts[j])
}

/// The strings that satisfy `p`, in ascending order (meaningful when
/// finitely many do).
pub open spec fn ascending_of(p: spec_fn(Seq<char>) -> bool) -> Seq<Seq<char>> {
    choose|ts: Seq<Seq<char>>| ascending(ts) && forall|t: Seq<char>| ts.contains(t) <==> p(t)
}

/// Two ascending lists with the same members are equal.
pub proof fn lemma_ascending_unique(a: Seq<Seq<char>>, b: Seq<Seq<char>>)
    requires
        ascending(a),
        ascending(b),
        forall|t: Seq<char>| a.contains(t) <==> b.contains(t),
    ensures
        a == b,
    decreases a.len(),
{
    if a.len() == 0 {
        if b.len() > 0 {
            assert(b.contains(b[0]));
        }
        assert(a =~= b);
    } else {
        assert(a.contains(a[0]));
        assert(b.len() > 0);
        assert(b.contains(b[0]));
        if a[0] != b[0] {
            let j = choose|j: int| 0 <= j < b.len() && b[j] == a[0];
            let i = choose|i: int| 0 <= i < a.len() && a[i] == b[0];
            assert(seq_lt(b[0], b[j]));
            assert(seq_lt(a[0], a[i]));
            lemma_seq_lt_order(a[0], b[0]);
        }
        let a1 = a.drop_first();
        let b1 = b.drop_first();
        assert forall|t: Seq<char>| a1.contains(t) <==> b1.contains(t) by {
            if a1.contains(t) {
                let i = choose|i: int| 0 <= i < a1.len() && a1[i] == t;
                assert(a[i + 1] == t);
                assert(seq_lt(a[0], a[i + 1]));
                lemma_seq_lt_order(t, t);
                assert(a.contains(t));
                let j = choose|j: int| 0 <= j < b.len() && b[j] == t;
                assert(j != 0);
                assert(b1[j - 1] == t);
            }
            if b1.contains(t) {
                let i = choose|i: int| 0 <= i < b1.len() && b1[i] == t;
                assert(b[i + 1] == t);
                assert(seq_lt(b[0], b[i + 1]));
                lemma_seq_lt_order(t, t);
                assert(b.contains(t));
                let j = choose|j: int| 0 <= j < a.len() && a[j] == t;
                assert(j != 0);
                assert(a1[j - 1] == t);
            }
        }
        assert forall|i: int, j: int| 0 <= i < j < a1.len() implies seq_lt(#[trigger] a1[i], #[trigger] a1[j]) by {
            assert(a1[i] == a[i + 1] && a1[j] == a[j + 1]);
        }
        assert forall|i: int, j: int| 0 <= i < j < b1.len() implies seq_lt(#[trigger] b1[i], #[trigger] b1[j]) by {
            assert(b1[i] == b[i + 1] && b1[j] == b[j + 1]);
        }
        lemma_ascending_unique(a1, b1);
        assert(a =~= seq![a[0]] + a1);
        assert(b =~= seq![b[0]] + b1);
    }
}

/// An ascending list of exactly the strings that satisfy `p` is
/// [`ascending_of`]`(p)`.
pub proof fn lemma_ascending_of(p: spec_fn(Seq<char>) -> bool, ts: Seq<Seq<char>>)
    requires
        ascending(ts),
        forall|t: Seq<char>| ts.contains(t) <==> p(t),
    ensures
        ascending_of(p) == ts,
{
    let c = ascending_of(p);
    assert(ascending(c) && forall|t: Seq<char>| c.contains(t) <==> p(t));
    lemma_ascending_unique(c, ts);
}

/// `a < b` in the lexicographic order of `str`.
pub fn str_lt(a: &str, b: &str) -> (r: bool)
    ensures
        r == seq_lt(a@, b@),
{
    let av = chars_of(a);
    let bv = chars_of(b);
    let mut i: usize = 0;
    proof {
        assert(av@.subrange(0, av@.len() as int) =~= av@);
        assert(bv@.subrange(0, bv@.len() as int) =~= bv@);
    }
    while i < av.len() && i < bv.len()
        invariant
            av@ == a@,
            bv@ == b@,
            i <= av@.len(),
            i <= bv@.len(),
            seq_lt(av@, bv@) == seq_lt(av@.subrange(i as int, av@.len() as int), bv@.subrange(
                i as int,
                bv@.len() as int,
            )),
        decreases av@.len() - i,
    {
        let ca = av[i];
        let cb = bv[i];
        proof {
            let sa = av@.subrange(i as int, av@.len() as int);
            let sb = bv@.subrange(i as int, bv@.len() as int);
            assert(sa[0] == ca);
            assert(sb[0] == cb);
            assert(sa.drop_first() =~= av@.subrange(i + 1, av@.len() as int));
            assert(sb.drop_first() =~= bv@.subrange(i + 1, bv@.len() as int));
        }
        if ca != cb {
            let r = ca < cb;
            proof {
                let sa = av@.subrange(i as int, av@.len() as int);
                let sb = bv@.subrange(i as int, bv@.len() as int);
                assert(sa.len() > 0 && sb.len() > 0);
                assert(sa[0] != sb[0]);
                assert(seq_lt(sa, sb) == (sa[0] < sb[0]));
            }
            return r;
        }
        i = i + 1;
    }
    proof {
        assert(av@.subrange(i as int, av@.len() as int).len() == av@.len() - i);
    }
    i < bv.len()
}

/// The decimal digits of `n`.
pub open spec fn decimal(n: nat) -> Seq<char>
    decreases n,
{
    if n < 10 {
        seq![digit_char(n)]
    } else {
        decimal(n / 10) + seq![digit_char(n % 10)]
    }
}

/// The digit character of `d < 10`.
pub open spec fn digit_char(d: nat) -> char {
    if d == 0 { '0' } else if d == 1 { '1' } else if d == 2 { '2' } else if d == 3 { '3' }
    else if d == 4 { '4' } else if d == 5 { '5' } else if d == 6 { '6' } else if d == 7 { '7' }
    else if d == 8 { '8' } else { '9' }
}

fn digit_str(d: u64) -> (r: &'static str)
    requires
        d < 10,
    ensures
        r@ == seq![digit_char(d as nat)],
{
    proof {
        reveal_strlit("0");
        reveal_strlit("1");
        reveal_strlit("2");
        reveal_strlit("3");
        reveal_strlit("4");
        reveal_strlit("5");
        reveal_strlit("6");
        reveal_strlit("7");
        reveal_strlit("8");
        reveal_strlit("9");
    }
    if d == 0 { "0" } else if d == 1 { "1" } else if d == 2 { "2" } else if d == 3 { "3" }
    else if d == 4 { "4" } else if d == 5 { "5" } else if d == 6 { "6" } else if d == 7 { "7" }
    else if d == 8 { "8" } else { "9" }
}

/// Decimal rendering of an unsigned integer.
pub fn u64_decimal(n: u64) -> (r: String)
    ensures
        r@ == decimal(n as nat),
    decreases n,
{
    if n < 10 {
        owned(digit_str(n))
    } else {
        let head = u64_decimal(n / 10);
        let d = digit_str(n % 10);
        cat(head.as_str(), d)
    }
}

/// Decimal rendering of a signed integer (`-` before negative values).
pub fn i64_decimal(n: i64) -> (r: String)
    ensures
        r@ == (if n < 0 { seq!['-'] + decimal((-n) as nat) } else { decimal(n as nat) }),
{
    if n < 0 {
        let m: u64 = if n == i64::MIN {
            9223372036854775808u64
        } else {
            (-n) as u64
        };
        let digits = u64_decimal(m);
        proof {
            reveal_strlit("-");
        }
        cat("-", digits.as_str())
    } else {
        u64_decimal(n as u64)
    }
}


/// Strings joined with a separator.
pub open spec fn join_spec(v: Seq<Seq<char>>, sep: Seq<char>) -> Seq<char>
    decreases v.len(),
{
    if v.len() == 0 {
        Seq::empty()
    } else if v.len() == 1 {
        v[0]
    } else {
        join_spec(v.drop_last(), sep) + sep + v.last()
    }
}

/// `v` joined with `sep` (see [`join_spec`]).
pub fn join_with(v: &Vec<String>, sep: &str) -> (r: String)
    ensures
        r@ == join_spec(views(v@), sep@),
{
    proof {
        reveal_strlit("");
    }
    let mut s = owned("");
    let ghost vv = views(v@);
    let mut i: usize = 0;
    proof {
        assert(vv.take(0) =~= Seq::<Seq<char>>::empty());
    }
    while i < v.len()
        invariant
            vv == views(v@),
            i <= v@.len(),
            s@ == join_spec(vv.take(i as int), sep@),
        decreases v@.len() - i,
    {
        proof {
            assert(vv.take(i + 1).drop_last() =~= vv.take(i as int));
            assert(vv.take(i + 1).last() == v@[i as int]@);
            if i == 0 {
                assert(vv.take(1) =~= seq![v@[0]@]);
            }
        }
        if i > 0 {
            s.append(sep);
        }
        s.append(v[i].as_str());
        i = i + 1;
    }
    proof {
        assert(vv.take(v@.len() as int) =~= vv);
    }
    s
}

/// A copy of a vector of strings.
pub fn copy_vec(v: &Vec<String>) -> (r: Vec<String>)
    ensures
        r@ == v@,
{
    let mut out: Vec<String> = Vec::new();
    let mut i: usize = 0;
    while i < v.len()
        invariant
            i <= v@.len(),
            out@ == v@.subrange(0, i as int),
        decreases v@.len() - i,
    {
        out.push(v[i].clone());
        proof {
            assert(out@ =~= v@.subrange(0, i + 1));
        }
        i = i + 1;
    }
    proof {
        assert(v@.subrange(0, v@.len() as int) =~= v@);
    }
    out
}

/// The string made of the characters of `v` (`FromIterator<char>` for
/// `String`, which concatenates them in order).
#[verifier::external_body]
pub(crate) fn string_of_chars(v: &Vec<char>) -> (r: String)
    ensures
        r@ == v@,
{
    v.iter().collect()
}

} // verus!
