//! Version directory names, the active-version pointer and the choice of old
//! versions to delete.
use vstd::prelude::*;
use vstd::relations::*;
use vstd::string::*;
use vstd::utf8::*;
use crate::text::{
    bytes_match_at, lemma_decode_view, owned, push_str, starts_with, str_eq, str_trim, trim_ws,
    views,
};

verus! {

/// The prefix of version directory names.
pub const VERSION_PREFIX: &'static str = "v_";

/// The filename of the active version pointer.
pub const ACTIVE_LINK: &'static str = "active";

/// How many version directories are kept, the active one included.
pub const MAX_KEPT_VERSIONS: usize = 2;

/// The decimal digit for `d < 10`.
pub open spec fn digit_char(d: nat) -> char {
    if d == 0 {
        '0'
    } else if d == 1 {
        '1'
    } else if d == 2 {
        '2'
    } else if d == 3 {
        '3'
    } else if d == 4 {
        '4'
    } else if d == 5 {
        '5'
    } else if d == 6 {
        '6'
    } else if d == 7 {
        '7'
    } else if d == 8 {
        '8'
    } else {
        '9'
    }
}

/// The decimal notation of `n`, without leading zeros.
pub open spec fn decimal(n: nat) -> Seq<char>
    decreases n,
{
    if n < 10 {
        seq![digit_char(n)]
    } else {
        decimal(n / 10) + seq![digit_char(n % 10)]
    }
}

fn digit_str(d: u128) -> (r: &'static str)
    requires
        d < 10,
    ensures
        r@ == seq![digit_char(d as nat)],
{
    if d == 0 {
        proof {
            reveal_strlit("0");
        }
        "0"
    } else if d == 1 {
        proof {
            reveal_strlit("1");
        }
        "1"
    } else if d == 2 {
        proof {
            reveal_strlit("2");
        }
        "2"
    } else if d == 3 {
        proof {
            reveal_strlit("3");
        }
        "3"
    } else if d == 4 {
        proof {
            reveal_strlit("4");
        }
        "4"
    } else if d == 5 {
        proof {
            reveal_strlit("5");
        }
        "5"
    } else if d == 6 {
        proof {
            reveal_strlit("6");
        }
        "6"
    } else if d == 7 {
        proof {
            reveal_strlit("7");
        }
        "7"
    } else if d == 8 {
        proof {
            reveal_strlit("8");
        }
        "8"
    } else {
        proof {
            reveal_strlit("9");
        }
        "9"
    }
}

/// Appends the decimal notation of `n` to `s`.
pub fn push_decimal(s: &mut String, n: u128)
    ensures
        final(s)@ == old(s)@ + decimal(n as nat),
    decreases n,
{
    if n >= 10 {
        push_decimal(s, n / 10);
    }
    push_str(s, digit_str(n % 10));
    proof {
        assert(old(s)@ + decimal(n as nat) =~= if n >= 10 {
            old(s)@ + decimal((n / 10) as nat) + seq![digit_char((n % 10) as nat)]
        } else {
            old(s)@ + seq![digit_char((n % 10) as nat)]
        });
    }
}

/// The decimal notation of `n`.
pub fn decimal_string(n: u128) -> (r: String)
    ensures
        r@ == decimal(n as nat),
{
    let mut s = String::new();
    push_decimal(&mut s, n);
    proof {
        assert(Seq::<char>::empty() + decimal(n as nat) =~= decimal(n as nat));
    }
    s
}

/// The version directory name for a timestamp in milliseconds: `v_<millis>`.
pub fn version_name(timestamp_millis: u128) -> (r: String)
    ensures
        r@ == VERSION_PREFIX@ + decimal(timestamp_millis as nat),
{
    let mut s = owned(VERSION_PREFIX);
    push_decimal(&mut s, timestamp_millis);
    s
}

/// The name of the temporary file the pointer is written to before it is
/// renamed over the pointer: `.active_tmp_<pid>`.
pub fn pointer_temp_name(pid: u32) -> (r: String)
    ensures
        r@ == ".active_tmp_"@ + decimal(pid as nat),
{
    let mut s = owned(".active_tmp_");
    push_decimal(&mut s, pid as u128);
    s
}

/// The version name recorded in the pointer file's text: the text without
/// surrounding white space, or `None` when nothing is left.
pub fn parse_active_pointer(content: &str) -> (r: Option<String>)
    ensures
        trim_ws(content.spec_bytes()).len() == 0 ==> r is None,
        trim_ws(content.spec_bytes()).len() > 0 ==> (r matches Some(v) && v@ == decode_utf8(
            trim_ws(content.spec_bytes()),
        )),
{
    let name = str_trim(content);
    if name.as_bytes().len() == 0 {
        None
    } else {
        proof {
            lemma_decode_view(name);
        }
        Some(owned(name))
    }
}


/// Byte-wise lexicographic order (the order of `str` and `String`).
pub open spec fn lex_le(a: Seq<u8>, b: Seq<u8>) -> bool
    decreases a.len(),
{
    if a.len() == 0 {
        true
    } else if b.len() == 0 {
        false
    } else if a[0] != b[0] {
        a[0] < b[0]
    } else {
        lex_le(a.drop_first(), b.drop_first())
    }
}

proof fn lemma_lex_total(a: Seq<u8>, b: Seq<u8>)
    ensures
        lex_le(a, b) || lex_le(b, a),
    decreases a.len(),
{
    if a.len() > 0 && b.len() > 0 && a[0] == b[0] {
        lemma_lex_total(a.drop_first(), b.drop_first());
    }
}

proof fn lemma_lex_antisymmetric(a: Seq<u8>, b: Seq<u8>)
    requires
        lex_le(a, b),
        lex_le(b, a),
    ensures
        a == b,
    decreases a.len(),
{
    if a.len() > 0 && b.len() > 0 {
        lemma_lex_antisymmetric(a.drop_first(), b.drop_first());
        assert(a =~= seq![a[0]] + a.drop_first());
        assert(b =~= seq![b[0]] + b.drop_first());
    }
}

proof fn lemma_lex_transitive(a: Seq<u8>, b: Seq<u8>, c: Seq<u8>)
    requires
        lex_le(a, b),
        lex_le(b, c),
    ensures
        lex_le(a, c),
    decreases a.len(),
{
    if a.len() > 0 && b.len() > 0 && c.len() > 0 && a[0] == b[0] && b[0] == c[0] {
        lemma_lex_transitive(a.drop_first(), b.drop_first(), c.drop_first());
    }
}

proof fn lemma_lex_reflexive(a: Seq<u8>)
    ensures
        lex_le(a, a),
    decreases a.len(),
{
    if a.len() > 0 {
        lemma_lex_reflexive(a.drop_first());
    }
}

/// Shortlex order: shorter first, then byte-wise lexicographic. On decimal
/// numerals without leading zeros it is the numeric order.
pub open spec fn shortlex_le(a: Seq<u8>, b: Seq<u8>) -> bool {
    a.len() < b.len() || (a.len() == b.len() && lex_le(a, b))
}

/// The order of version names: shortlex order of their UTF-8, so that
/// `v_9` sorts before `v_10`.
pub open spec fn version_order() -> spec_fn(Seq<char>, Seq<char>) -> bool {
    |a: Seq<char>, b: Seq<char>| shortlex_le(encode_utf8(a), encode_utf8(b))
}

/// The version order is a total order.
pub proof fn lemma_version_order_total()
    ensures
        total_ordering(version_order()),
{
    let r = version_order();
    assert forall|x: Seq<char>| #[trigger] r(x, x) by {
        lemma_lex_reflexive(encode_utf8(x));
    }
    assert forall|x: Seq<char>, y: Seq<char>| #[trigger] r(x, y) && #[trigger] r(y, x) implies x == y by {
        lemma_lex_antisymmetric(encode_utf8(x), encode_utf8(y));
        encode_utf8_decode_utf8(x);
        encode_utf8_decode_utf8(y);
    }
    assert forall|x: Seq<char>, y: Seq<char>, z: Seq<char>| #[trigger] r(x, y) && #[trigger] r(y, z) implies r(x, z) by {
        let (a, b, c) = (encode_utf8(x), encode_utf8(y), encode_utf8(z));
        if a.len() == b.len() && b.len() == c.len() {
            lemma_lex_transitive(a, b, c);
        }
    }
    assert forall|x: Seq<char>, y: Seq<char>| #[trigger] r(x, y) || #[trigger] r(y, x) by {
        lemma_lex_total(encode_utf8(x), encode_utf8(y));
    }
}

/// Whether `a` sorts before or equal to `b` in version order.
fn string_le(a: &String, b: &String) -> (r: bool)
    ensures
        r == version_order()(a@, b@),
{
    let x = a.as_str().as_bytes();
    let y = b.as_str().as_bytes();
    if x.len() != y.len() {
        return x.len() < y.len();
    }
    let mut i: usize = 0;
    proof {
        assert(x@.skip(0) =~= x@);
        assert(y@.skip(0) =~= y@);
    }
    while i < x.len() && i < y.len() && x[i] == y[i]
        invariant
            i <= x@.len(),
            i <= y@.len(),
            lex_le(x@, y@) == lex_le(x@.skip(i as int), y@.skip(i as int)),
        decreases x@.len() - i,
    {
        proof {
            assert(x@.skip(i as int).drop_first() =~= x@.skip(i + 1));
            assert(y@.skip(i as int).drop_first() =~= y@.skip(i + 1));
        }
        i = i + 1;
    }
    proof {
        if i < x@.len() && i < y@.len() {
            assert(x@.skip(i as int)[0] == x@[i as int]);
            assert(y@.skip(i as int)[0] == y@[i as int]);
        }
    }
    if i == x.len() {
        true
    } else if i == y.len() {
        false
    } else {
        x[i] < y[i]
    }
}

/// Sorts names in ascending version order.
pub fn sort_names(names: Vec<String>) -> (r: Vec<String>)
    ensures
        views(r@) == views(names@).sort_by(version_order()),
{
    proof {
        lemma_version_order_total();
    }
    let ghost ord = version_order();
    let mut sorted: Vec<String> = Vec::new();
    let mut i: usize = 0;
    proof {
        assert(views(sorted@) =~= views(names@).subrange(0, 0));
    }
    while i < names.len()
        invariant
            i <= names@.len(),
            total_ordering(ord),
            ord == version_order(),
            sorted_by(views(sorted@), ord),
            views(sorted@).to_multiset() == views(names@).subrange(0, i as int).to_multiset(),
        decreases names@.len() - i,
    {
        let x = &names[i];
        let mut p: usize = 0;
        while p < sorted.len() && string_le(&sorted[p], x)
            invariant
                p <= sorted@.len(),
                forall|k: int| 0 <= k < p ==> #[trigger] ord(sorted@[k]@, x@),
                ord == version_order(),
            decreases sorted@.len() - p,
        {
            p = p + 1;
        }
        let ghost before = views(sorted@);
        proof {
            if p < sorted@.len() {
                assert(ord(x@, sorted@[p as int]@));
            }
        }
        sorted.insert(p, x.clone());
        proof {
            broadcast use vstd::seq_lib::group_to_multiset_ensures;
            let after = views(sorted@);
            assert(after =~= before.insert(p as int, x@));
            assert forall|a: int, b: int| 0 <= a < b < after.len() implies #[trigger] ord(after[a], after[b]) by {
                if b < p {
                } else if b == p {
                } else if a < p {
                    assert(ord(before[a], x@));
                    assert(ord(x@, before[p as int]) || p == before.len());
                    if p < before.len() {
                        assert(ord(before[p as int], before[b - 1]) || p == b - 1);
                    }
                } else if a == p {
                    if p < before.len() {
                        assert(ord(before[p as int], before[b - 1]) || p == b - 1);
                    }
                } else {
                }
            }
            vstd::seq_lib::to_multiset_insert(before, p as int, x@);
            assert(views(names@).subrange(0, i + 1) =~= views(names@).subrange(0, i as int).push(x@));
        }
        i = i + 1;
    }
    proof {
        assert(views(names@).subrange(0, names@.len() as int) =~= views(names@));
        views(names@).lemma_sort_by_ensures(ord);
        vstd::seq_lib::lemma_sorted_unique(views(sorted@), views(names@).sort_by(ord), ord);
    }
    sorted
}


/// A directory entry (name, is-directory) is an old version relative to the
/// `current` one: a directory named `v_...` other than `current`.
pub open spec fn is_old_version(name: Seq<char>, is_dir: bool, current: Seq<char>) -> bool {
    &&& starts_with(encode_utf8(name), VERSION_PREFIX.spec_bytes())
    &&& name != current
    &&& is_dir
}

/// The names of the old versions among `entries`, in entry order.
pub open spec fn old_versions(entries: Seq<(String, bool)>, current: Seq<char>) -> Seq<Seq<char>>
    decreases entries.len(),
{
    if entries.len() == 0 {
        Seq::empty()
    } else {
        let rest = old_versions(entries.drop_last(), current);
        let e = entries.last();
        if is_old_version(e.0@, e.1, current) {
            rest.push(e.0@)
        } else {
            rest
        }
    }
}

/// How many old versions are kept besides the current one.
pub open spec fn kept_old_count() -> nat {
    if MAX_KEPT_VERSIONS >= 1 {
        (MAX_KEPT_VERSIONS - 1) as nat
    } else {
        0
    }
}

/// The old versions to delete: all but the `kept_old_count()` greatest in
/// version order, in ascending order; none when there are no more than that.
pub open spec fn versions_removed(entries: Seq<(String, bool)>, current: Seq<char>) -> Seq<Seq<char>> {
    let c = old_versions(entries, current);
    if c.len() <= kept_old_count() {
        Seq::empty()
    } else {
        c.sort_by(version_order()).take(c.len() - kept_old_count())
    }
}

/// Chooses the version directories to delete so that, besides `current`, only
/// the most recent `MAX_KEPT_VERSIONS - 1` old versions remain.
pub fn versions_to_remove(entries: &Vec<(String, bool)>, current: &str) -> (r: Vec<String>)
    ensures
        views(r@) == versions_removed(entries@, current@),
{
    let prefix = VERSION_PREFIX.as_bytes();
    let mut names: Vec<String> = Vec::new();
    let mut i: usize = 0;
    while i < entries.len()
        invariant
            i <= entries@.len(),
            prefix@ == VERSION_PREFIX.spec_bytes(),
            views(names@) == old_versions(entries@.subrange(0, i as int), current@),
        decreases entries@.len() - i,
    {
        let name = &entries[i].0;
        let is_dir = entries[i].1;
        let ghost sub = entries@.subrange(0, i + 1);
        proof {
            assert(sub.drop_last() =~= entries@.subrange(0, i as int));
            assert(sub.last() == entries@[i as int]);
        }
        if bytes_match_at(name.as_str().as_bytes(), prefix, 0) && !str_eq(name.as_str(), current) && is_dir {
            names.push(name.clone());
            proof {
                assert(views(names@) =~= old_versions(sub.drop_last(), current@).push(name@));
            }
        }
        i = i + 1;
    }
    proof {
        assert(entries@.subrange(0, entries@.len() as int) =~= entries@);
    }
    let keep: usize = if MAX_KEPT_VERSIONS >= 1 {
        MAX_KEPT_VERSIONS - 1
    } else {
        0
    };
    if names.len() <= keep {
        return Vec::new();
    }
    let to_remove = names.len() - keep;
    let sorted = sort_names(names);
    proof {
        lemma_version_order_total();
        views(names@).lemma_sort_by_ensures(version_order());
        broadcast use vstd::seq_lib::group_to_multiset_ensures;
        assert(views(sorted@).to_multiset().len() == views(sorted@).len());
        assert(views(names@).to_multiset().len() == views(names@).len());
        assert(views(sorted@).len() == views(names@).len());
    }
    let mut r: Vec<String> = Vec::new();
    let mut k: usize = 0;
    while k < to_remove
        invariant
            k <= to_remove <= sorted@.len(),
            views(r@) == views(sorted@).take(k as int),
        decreases to_remove - k,
    {
        let ghost before = views(r@);
        r.push(sorted[k].clone());
        proof {
            assert(views(r@) =~= before.push(sorted@[k as int]@));
            assert(views(sorted@).take(k + 1) =~= views(sorted@).take(k as int).push(sorted@[k as int]@));
        }
        k = k + 1;
    }
    r
}


/// The UTF-8 of `decimal(n)`: one ASCII digit byte per digit.
pub open spec fn decimal_bytes(n: nat) -> Seq<u8>
    decreases n,
{
    if n < 10 {
        seq![(48 + n) as u8]
    } else {
        decimal_bytes(n / 10).push((48 + n % 10) as u8)
    }
}

proof fn lemma_decimal_bytes(n: nat)
    ensures
        encode_utf8(decimal(n)) == decimal_bytes(n),
        decimal_bytes(n).len() >= 1,
        n < 10 <==> decimal_bytes(n).len() == 1,
    decreases n,
{
    let d = digit_char(n % 10);
    assert(is_ascii_chars(seq![d]));
    is_ascii_chars_encode_utf8(seq![d]);
    assert(encode_utf8(seq![d]) =~= seq![(48 + n % 10) as u8]);
    if n >= 10 {
        lemma_decimal_bytes(n / 10);
        crate::text::lemma_encode_concat(decimal(n / 10), seq![d]);
        assert(decimal_bytes(n / 10) + seq![(48 + n % 10) as u8] =~= decimal_bytes(n));
    }
}

proof fn lemma_decimal_bytes_len_monotone(n: nat, m: nat)
    requires
        n <= m,
    ensures
        decimal_bytes(n).len() <= decimal_bytes(m).len(),
    decreases m,
{
    lemma_decimal_bytes(n);
    lemma_decimal_bytes(m);
    if n >= 10 {
        lemma_decimal_bytes_len_monotone(n / 10, m / 10);
    }
}

proof fn lemma_lex_push(x: Seq<u8>, y: Seq<u8>, a: u8, b: u8)
    requires
        x.len() == y.len(),
    ensures
        lex_le(x.push(a), y.push(b)) == if x == y {
            a <= b
        } else {
            lex_le(x, y)
        },
    decreases x.len(),
{
    if x.len() == 0 {
        assert(x =~= y);
        assert(x.push(a)[0] == a);
        assert(y.push(b)[0] == b);
        assert(x.push(a).drop_first() =~= Seq::<u8>::empty());
        assert(y.push(b).drop_first() =~= Seq::<u8>::empty());
        assert(lex_le(Seq::<u8>::empty(), Seq::<u8>::empty()));
    } else {
        assert(x.push(a).drop_first() =~= x.drop_first().push(a));
        assert(y.push(b).drop_first() =~= y.drop_first().push(b));
        let (xa, yb) = (x.push(a), y.push(b));
        lemma_lex_push(x.drop_first(), y.drop_first(), a, b);
        assert(xa[0] == x[0]);
        assert(yb[0] == y[0]);
        assert(x =~= seq![x[0]] + x.drop_first());
        assert(y =~= seq![y[0]] + y.drop_first());
        if x[0] == y[0] {
            assert(lex_le(xa, yb) == lex_le(xa.drop_first(), yb.drop_first()));
            assert(lex_le(x, y) == lex_le(x.drop_first(), y.drop_first()));
            if x == y {
                assert(x.drop_first() == y.drop_first());
            } else {
                assert(x.drop_first() != y.drop_first());
            }
        } else {
            assert(x != y);
        }
    }
}

proof fn lemma_decimal_bytes_lex(n: nat, m: nat)
    requires
        decimal_bytes(n).len() == decimal_bytes(m).len(),
    ensures
        lex_le(decimal_bytes(n), decimal_bytes(m)) <==> n <= m,
    decreases n + m,
{
    lemma_decimal_bytes(n);
    lemma_decimal_bytes(m);
    if n < 10 {
        assert(m < 10);
        assert(decimal_bytes(n)[0] == 48 + n);
        assert(decimal_bytes(m)[0] == 48 + m);
        assert(decimal_bytes(n).drop_first() =~= Seq::<u8>::empty());
        assert(decimal_bytes(m).drop_first() =~= Seq::<u8>::empty());
        assert(lex_le(Seq::<u8>::empty(), Seq::<u8>::empty()));
    } else {
        assert(m >= 10);
        assert(decimal_bytes(n) == decimal_bytes(n / 10).push((48 + n % 10) as u8));
        assert(decimal_bytes(m) == decimal_bytes(m / 10).push((48 + m % 10) as u8));
        let x = decimal_bytes(n / 10);
        let y = decimal_bytes(m / 10);
        lemma_lex_push(x, y, (48 + n % 10) as u8, (48 + m % 10) as u8);
        lemma_decimal_bytes_lex(n / 10, m / 10);
        lemma_decimal_bytes_lex(m / 10, n / 10);
        if x == y {
            assert(n / 10 == m / 10);
        }
    }
}

proof fn lemma_lex_common_prefix(p: Seq<u8>, x: Seq<u8>, y: Seq<u8>)
    ensures
        lex_le(p + x, p + y) == lex_le(x, y),
    decreases p.len(),
{
    if p.len() > 0 {
        assert((p + x).drop_first() =~= p.drop_first() + x);
        assert((p + y).drop_first() =~= p.drop_first() + y);
        lemma_lex_common_prefix(p.drop_first(), x, y);
    } else {
        assert(p + x =~= x);
        assert(p + y =~= y);
    }
}

/// Version names are ordered as their timestamps: `version_name(t1)` sorts
/// before or equal to `version_name(t2)` exactly when `t1 <= t2`, so the
/// versions removed first are the oldest.
pub proof fn lemma_version_order_is_time_order(t1: u128, t2: u128)
    ensures
        version_order()(VERSION_PREFIX@ + decimal(t1 as nat), VERSION_PREFIX@ + decimal(t2 as nat)) <==> t1
            <= t2,
{
    let (n, m) = (t1 as nat, t2 as nat);
    let p = encode_utf8(VERSION_PREFIX@);
    lemma_decimal_bytes(n);
    lemma_decimal_bytes(m);
    crate::text::lemma_encode_concat(VERSION_PREFIX@, decimal(n));
    crate::text::lemma_encode_concat(VERSION_PREFIX@, decimal(m));
    let (x, y) = (decimal_bytes(n), decimal_bytes(m));
    if x.len() == y.len() {
        lemma_lex_common_prefix(p, x, y);
        lemma_decimal_bytes_lex(n, m);
    } else if n <= m {
        lemma_decimal_bytes_len_monotone(n, m);
    } else {
        lemma_decimal_bytes_len_monotone(m, n);
    }
}

proof fn lemma_digit_char_injective(a: nat, b: nat)
    requires
        a < 10,
        b < 10,
        digit_char(a) == digit_char(b),
    ensures
        a == b,
{
}

proof fn lemma_decimal_digits(n: nat)
    ensures
        decimal(n).len() >= 1,
        forall|i: int| 0 <= i < decimal(n).len() ==> '0' <= #[trigger] decimal(n)[i] <= '9',
    decreases n,
{
    if n >= 10 {
        lemma_decimal_digits(n / 10);
    }
}

/// Distinct timestamps give distinct decimal notations.
pub proof fn lemma_decimal_injective(a: nat, b: nat)
    requires
        decimal(a) == decimal(b),
    ensures
        a == b,
    decreases a,
{
    lemma_decimal_digits(a / 10);
    lemma_decimal_digits(b / 10);
    let da = decimal(a);
    let db = decimal(b);
    if a < 10 && b < 10 {
        assert(da[0] == digit_char(a));
        assert(db[0] == digit_char(b));
        lemma_digit_char_injective(a, b);
    } else if a < 10 {
        assert(db.len() >= 2);
    } else if b < 10 {
        assert(da.len() >= 2);
    } else {
        assert(da.last() == digit_char(a % 10));
        assert(db.last() == digit_char(b % 10));
        lemma_digit_char_injective(a % 10, b % 10);
        assert(da.drop_last() =~= decimal(a / 10));
        assert(db.drop_last() =~= decimal(b / 10));
        lemma_decimal_injective(a / 10, b / 10);
    }
}

/// Distinct timestamps give distinct version names.
pub proof fn lemma_version_names_distinct(t1: u128, t2: u128)
    requires
        t1 != t2,
    ensures
        VERSION_PREFIX@ + decimal(t1 as nat) != VERSION_PREFIX@ + decimal(t2 as nat),
{
    if VERSION_PREFIX@ + decimal(t1 as nat) == VERSION_PREFIX@ + decimal(t2 as nat) {
        let n = VERSION_PREFIX@.len() as int;
        assert(decimal(t1 as nat) =~= (VERSION_PREFIX@ + decimal(t1 as nat)).subrange(n, (VERSION_PREFIX@ + decimal(t1 as nat)).len() as int));
        assert(decimal(t2 as nat) =~= (VERSION_PREFIX@ + decimal(t2 as nat)).subrange(n, (VERSION_PREFIX@ + decimal(t2 as nat)).len() as int));
        lemma_decimal_injective(t1 as nat, t2 as nat);
    }
}

/// A version name written to the pointer file reads back unchanged: it has no
/// surrounding white space to trim.
pub proof fn lemma_pointer_round_trip(t: u128)
    ensures
        decode_utf8(trim_ws(encode_utf8(VERSION_PREFIX@ + decimal(t as nat)))) == VERSION_PREFIX@ + decimal(
            t as nat,
        ),
{
    reveal_strlit("v_");
    let name = VERSION_PREFIX@ + decimal(t as nat);
    lemma_decimal_digits(t as nat);
    assert(name[0] == 'v');
    assert(name.last() == decimal(t as nat).last());
    assert(is_ascii_chars(name));
    is_ascii_chars_encode_utf8(name);
    let b = encode_utf8(name);
    assert(b[0] == 0x76);
    assert(b[b.len() - 1] == name.last() as u8);
    assert(crate::text::ws_prefix_len(b) == 0);
    assert(crate::text::trim_start_ws(b) == b);
    assert(crate::text::ws_suffix_len(b) == 0);
    assert(crate::text::trim_end_ws(b) == b);
    encode_utf8_decode_utf8(name);
}

proof fn lemma_old_versions_are_old(entries: Seq<(String, bool)>, current: Seq<char>)
    ensures
        forall|i: int| 0 <= i < old_versions(entries, current).len() ==> is_old_version(
            #[trigger] old_versions(entries, current)[i],
            true,
            current,
        ),
    decreases entries.len(),
{
    if entries.len() > 0 {
        lemma_old_versions_are_old(entries.drop_last(), current);
        let rest = old_versions(entries.drop_last(), current);
        let e = entries.last();
        if is_old_version(e.0@, e.1, current) {
            assert forall|i: int| 0 <= i < rest.len() + 1 implies is_old_version(
                #[trigger] rest.push(e.0@)[i],
                true,
                current,
            ) by {
                if i < rest.len() {
                    assert(rest.push(e.0@)[i] == rest[i]);
                }
            }
        }
    }
}

/// Cleanup only deletes old versions (never the current one), deletes them
/// oldest first, and leaves exactly `min(#old, MAX_KEPT_VERSIONS - 1)` old
/// versions, each newer than every deleted one.
pub proof fn lemma_cleanup_keeps_newest(entries: Seq<(String, bool)>, current: Seq<char>)
    ensures
        ({
            let old = old_versions(entries, current);
            let removed = versions_removed(entries, current);
            let sorted = old.sort_by(version_order());
            &&& forall|i: int| 0 <= i < removed.len() ==> is_old_version(#[trigger] removed[i], true, current)
            &&& forall|i: int| 0 <= i < removed.len() ==> #[trigger] removed[i] != current
            &&& old.len() - removed.len() == if old.len() <= kept_old_count() {
                old.len() as int
            } else {
                kept_old_count() as int
            }
            &&& removed == sorted.take(removed.len() as int)
            &&& forall|i: int, j: int|
                0 <= i < removed.len() <= j < sorted.len() ==> version_order()(#[trigger] removed[i], #[trigger] sorted[j])
        }),
{
    let old = old_versions(entries, current);
    let removed = versions_removed(entries, current);
    let sorted = old.sort_by(version_order());
    lemma_version_order_total();
    old.lemma_sort_by_ensures(version_order());
    lemma_old_versions_are_old(entries, current);
    broadcast use vstd::seq_lib::group_to_multiset_ensures;
    assert(sorted.to_multiset().len() == sorted.len());
    assert(old.to_multiset().len() == old.len());
    if old.len() > kept_old_count() {
        assert forall|i: int| 0 <= i < removed.len() implies is_old_version(#[trigger] removed[i], true, current) by {
            assert(removed[i] == sorted[i]);
            assert(sorted.to_multiset().count(sorted[i]) > 0);
            assert(old.contains(sorted[i]));
        }
    } else {
        assert(removed =~= sorted.take(0));
    }
}

} // verus!
