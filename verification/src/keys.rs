//! The keys of the owner index: an owner and a creation time in one key, so
//! that a plain scan in key order groups a table by owner and, within an
//! owner, walks it in order of creation.

use vstd::prelude::*;
use vstd::string::StringExecFns;
use crate::decimal::{decimal, digit_char, digits, lemma_digits_shape, push_decimal};
use crate::engine::{key_lt, key_within};
use crate::text::push_char;

verus! {

/// The index key of a record: its owner, a colon, and its creation time in
/// microseconds as decimal text.
pub open spec fn index_key(owner: Seq<char>, created_at: i64) -> Seq<char> {
    owner + seq![':'] + decimal(created_at as int)
}

/// The least key that an owner's index entries can have: the owner and a colon.
pub open spec fn owner_lower(owner: Seq<char>) -> Seq<char> {
    owner + seq![':']
}

/// A key above all of an owner's index entries: the owner, a colon and `{`,
/// a character that sorts after every character of a decimal number.
pub open spec fn owner_upper(owner: Seq<char>) -> Seq<char> {
    owner + seq![':', '{']
}

/// The index key of a record of `owner` created at `created_at`.
pub fn make_index_key(owner: &str, created_at: i64) -> (key: String)
    ensures
        key@ == index_key(owner@, created_at),
{
    let mut key = String::from_str(owner);
    push_char(&mut key, ':');
    push_decimal(&mut key, created_at);
    assert(key@ =~= index_key(owner@, created_at));
    key
}

/// The lower bound, included, of the scan over the index entries of `owner`.
pub fn make_owner_lower(owner: &str) -> (key: String)
    ensures
        key@ == owner_lower(owner@),
{
    let mut key = String::from_str(owner);
    push_char(&mut key, ':');
    assert(key@ =~= owner_lower(owner@));
    key
}

/// The upper bound, excluded, of the scan over the index entries of `owner`.
pub fn make_owner_upper(owner: &str) -> (key: String)
    ensures
        key@ == owner_upper(owner@),
{
    let mut key = String::from_str(owner);
    push_char(&mut key, ':');
    push_char(&mut key, '{');
    assert(key@ =~= owner_upper(owner@));
    key
}

/// Keys with a common beginning are ordered as what follows it.
pub proof fn lemma_key_lt_after_prefix(prefix: Seq<char>, a: Seq<char>, b: Seq<char>)
    ensures
        key_lt(prefix + a, prefix + b) == key_lt(a, b),
    decreases prefix.len(),
{
    if prefix.len() == 0 {
        assert(prefix + a =~= a);
        assert(prefix + b =~= b);
    } else {
        let rest = prefix.drop_first();
        assert((prefix + a).drop_first() =~= rest + a);
        assert((prefix + b).drop_first() =~= rest + b);
        assert((prefix + a)[0] == (prefix + b)[0]);
        lemma_key_lt_after_prefix(rest, a, b);
    }
}

/// No key comes before itself.
pub proof fn lemma_key_lt_irreflexive(a: Seq<char>)
    ensures
        !key_lt(a, a),
    decreases a.len(),
{
    if a.len() > 0 {
        lemma_key_lt_irreflexive(a.drop_first());
    }
}

/// Of two keys, at most one comes before the other.
pub proof fn lemma_key_lt_asymmetric(a: Seq<char>, b: Seq<char>)
    ensures
        !(key_lt(a, b) && key_lt(b, a)),
    decreases a.len(),
{
    if a.len() > 0 && b.len() > 0 && a[0] == b[0] {
        lemma_key_lt_asymmetric(a.drop_first(), b.drop_first());
    }
}

/// The order of keys is transitive.
pub proof fn lemma_key_lt_transitive(a: Seq<char>, b: Seq<char>, c: Seq<char>)
    requires
        key_lt(a, b),
        key_lt(b, c),
    ensures
        key_lt(a, c),
    decreases a.len(),
{
    if a.len() > 0 && b.len() > 0 && c.len() > 0 && a[0] == b[0] && b[0] == c[0] {
        lemma_key_lt_transitive(a.drop_first(), b.drop_first(), c.drop_first());
    }
}

/// Of two different keys, one comes before the other.
pub proof fn lemma_key_lt_total(a: Seq<char>, b: Seq<char>)
    ensures
        a == b || key_lt(a, b) || key_lt(b, a),
    decreases a.len(),
{
    if a.len() == 0 || b.len() == 0 {
        if a.len() == 0 && b.len() == 0 {
            assert(a =~= b);
        }
    } else if a[0] == b[0] {
        lemma_key_lt_total(a.drop_first(), b.drop_first());
        if a.drop_first() == b.drop_first() {
            assert(a =~= seq![a[0]] + a.drop_first());
            assert(b =~= seq![b[0]] + b.drop_first());
        }
    }
}

/// The index key of any record of an owner lies within the bounds of the
/// scan over that owner's entries.
pub proof fn lemma_index_key_within_owner(owner: Seq<char>, created_at: i64)
    ensures
        key_within(index_key(owner, created_at), Some(owner_lower(owner)), Some(owner_upper(owner))),
{
    let prefix = owner + seq![':'];
    let text = decimal(created_at as int);
    if created_at < 0 {
        lemma_digits_shape((-(created_at as int)) as nat);
    } else {
        lemma_digits_shape(created_at as nat);
    }
    assert(text.len() > 0 && text[0] != '{' && text[0] < '{');
    assert(owner_lower(owner) =~= prefix + Seq::<char>::empty());
    assert(owner_upper(owner) =~= prefix + seq!['{']);
    lemma_key_lt_after_prefix(prefix, text, Seq::<char>::empty());
    lemma_key_lt_after_prefix(prefix, text, seq!['{']);
    assert(seq!['{'].drop_first() =~= Seq::<char>::empty());
}

/// Two texts of one length that differ only from some position on are ordered
/// as their last characters where all before is equal, else as what is before.
proof fn lemma_key_lt_push(a: Seq<char>, b: Seq<char>, c: char, d: char)
    requires
        a.len() == b.len(),
    ensures
        key_lt(a.push(c), b.push(d)) == (key_lt(a, b) || (a == b && c < d)),
    decreases a.len(),
{
    if a.len() == 0 {
        assert(a =~= b);
        assert(a.push(c)[0] == c && b.push(d)[0] == d);
        assert(a.push(c).drop_first() =~= Seq::<char>::empty());
        assert(b.push(d).drop_first() =~= Seq::<char>::empty());
        assert(!key_lt(a.push(c).drop_first(), b.push(d).drop_first()));
    } else {
        let ra = a.drop_first();
        let rb = b.drop_first();
        assert(a.push(c)[0] == a[0] && b.push(d)[0] == b[0]);
        assert(a.push(c).drop_first() =~= ra.push(c));
        assert(b.push(d).drop_first() =~= rb.push(d));
        lemma_key_lt_push(ra, rb, c, d);
        if a[0] == b[0] {
            if ra == rb {
                assert(a =~= seq![a[0]] + ra);
                assert(b =~= seq![b[0]] + rb);
            }
        }
    }
}

/// Among numbers with the same count of digits, the smaller number has the
/// smaller decimal text in the order of keys.
pub proof fn lemma_digits_ordered(m: nat, n: nat)
    requires
        m < n,
        digits(m).len() == digits(n).len(),
    ensures
        key_lt(digits(m), digits(n)),
    decreases n,
{
    lemma_digits_shape(m);
    lemma_digits_shape(n);
    if n < 10 {
        assert(digits(m).drop_first() =~= Seq::<char>::empty());
    } else {
        let c = digit_char((m % 10) as int);
        let d = digit_char((n % 10) as int);
        lemma_key_lt_push(digits(m / 10), digits(n / 10), c, d);
        if m / 10 < n / 10 {
            lemma_digits_ordered(m / 10, n / 10);
        }
    }
}

/// Order of creation is order of keys: of two records of one owner whose
/// creation times are not negative and have the same count of decimal digits,
/// the one created first has the smaller index key.
pub proof fn lemma_index_key_ordered(owner: Seq<char>, first: i64, second: i64)
    requires
        0 <= first < second,
        decimal(first as int).len() == decimal(second as int).len(),
    ensures
        key_lt(index_key(owner, first), index_key(owner, second)),
{
    lemma_digits_ordered(first as nat, second as nat);
    lemma_key_lt_after_prefix(owner + seq![':'], decimal(first as int), decimal(second as int));
}

/// The first moment whose count of microseconds has sixteen digits: in
/// September 2001.
pub const SIXTEEN_DIGITS_FROM: i64 = 1_000_000_000_000_000;

/// The last moment whose count of microseconds has sixteen digits: in
/// November 2286.
pub const SIXTEEN_DIGITS_UNTIL: i64 = 9_999_999_999_999_999;

/// Ten to the power of `k`.
pub open spec fn power_of_ten(k: nat) -> nat
    decreases k,
{
    if k == 0 {
        1
    } else {
        10 * power_of_ten((k - 1) as nat)
    }
}

/// A number from ten to the `k - 1` up to, but not including, ten to the `k`
/// has `k` decimal digits.
pub proof fn lemma_digits_count(n: nat, k: nat)
    requires
        k >= 1,
        power_of_ten((k - 1) as nat) <= n < power_of_ten(k),
    ensures
        digits(n).len() == k,
    decreases k,
{
    if k == 1 {
        assert(power_of_ten(1) == 10 * power_of_ten(0));
    } else {
        assert(power_of_ten((k - 1) as nat) == 10 * power_of_ten((k - 2) as nat));
        assert(power_of_ten(k) == 10 * power_of_ten((k - 1) as nat));
        assert(power_of_ten((k - 2) as nat) >= 1) by {
            lemma_power_of_ten_positive((k - 2) as nat);
        }
        lemma_digits_count(n / 10, (k - 1) as nat);
    }
}

/// A power of ten is at least one.
pub proof fn lemma_power_of_ten_positive(k: nat)
    ensures
        power_of_ten(k) >= 1,
    decreases k,
{
    if k > 0 {
        lemma_power_of_ten_positive((k - 1) as nat);
    }
}

/// Order of creation is order of keys from September 2001 to November 2286:
/// of two records of one owner created in that span, the one created first
/// has the smaller index key.
pub proof fn lemma_index_key_ordered_in_span(owner: Seq<char>, first: i64, second: i64)
    requires
        SIXTEEN_DIGITS_FROM <= first < second <= SIXTEEN_DIGITS_UNTIL,
    ensures
        key_lt(index_key(owner, first), index_key(owner, second)),
{
    assert(power_of_ten(15) == 1_000_000_000_000_000 && power_of_ten(16) == 10_000_000_000_000_000) by {
        reveal_with_fuel(power_of_ten, 17);
    }
    lemma_digits_count(first as nat, 16);
    lemma_digits_count(second as nat, 16);
    lemma_index_key_ordered(owner, first, second);
}

/// Whether a text holds no colon. The keys of two owners whose names hold no
/// colon never share a beginning.
pub open spec fn colon_free(text: Seq<char>) -> bool {
    forall|i: int| 0 <= i < text.len() ==> #[trigger] text[i] != ':'
}

/// A key between a text, included, and the same text with `{` after it,
/// excluded, begins with that text.
pub proof fn lemma_within_begins_with(key: Seq<char>, prefix: Seq<char>)
    requires
        key_within(key, Some(prefix), Some(prefix.push('{'))),
    ensures
        key.len() >= prefix.len(),
        key.take(prefix.len() as int) == prefix,
    decreases prefix.len(),
{
    if prefix.len() == 0 {
        assert(key.take(0) =~= prefix);
    } else {
        let upper = prefix.push('{');
        assert(upper[0] == prefix[0]);
        assert(upper.drop_first() =~= prefix.drop_first().push('{'));
        assert(key.len() > 0);
        assert(key[0] == prefix[0]);
        lemma_within_begins_with(key.drop_first(), prefix.drop_first());
        assert(key.take(prefix.len() as int) =~= seq![key[0]] + key.drop_first().take(prefix.len() - 1));
        assert(prefix =~= seq![prefix[0]] + prefix.drop_first());
    }
}

/// An index key that lies within the bounds of the scan over an owner's
/// entries is a key of that owner, as long as neither owner's name holds a
/// colon.
pub proof fn lemma_within_owner_is_owner(owner: Seq<char>, other: Seq<char>, created_at: i64)
    requires
        colon_free(owner),
        colon_free(other),
        key_within(index_key(other, created_at), Some(owner_lower(owner)), Some(owner_upper(owner))),
    ensures
        other == owner,
{
    let key = index_key(other, created_at);
    let prefix = owner_lower(owner);
    assert(owner_upper(owner) =~= prefix.push('{'));
    lemma_within_begins_with(key, prefix);
    assert(key.take(prefix.len() as int)[owner.len() as int] == ':');
    assert(key[owner.len() as int] == ':');
    if owner.len() < other.len() {
        assert(key[owner.len() as int] == other[owner.len() as int]);
    } else if owner.len() > other.len() {
        assert(key[other.len() as int] == ':');
        assert(key.take(prefix.len() as int)[other.len() as int] == owner[other.len() as int]);
    } else {
        assert forall|i: int| 0 <= i < owner.len() implies owner[i] == other[i] by {
            assert(key.take(prefix.len() as int)[i] == owner[i]);
            assert(key[i] == other[i]);
        }
        assert(owner =~= other);
    }
}

} // verus!
