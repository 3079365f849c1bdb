//! The snapshot wire codec.
//!
//! Snapshots travel between nodes and in and out of the ledger store as a
//! JSON array of records, in the one canonical spelling this module both
//! produces and accepts: no surrounding whitespace, fields in a fixed
//! order, strings escaping only quote and backslash, and integers in plain
//! decimal. A record carries an optional origin field first (named by the
//! aggregation tier, e.g. `unit` or `branch`), then `item_type`, then
//! `quantity`. Accepting exactly the canonical form makes the decoder the
//! strict validation checkpoint of the aggregation protocol: anything else
//! is malformed.

use vstd::prelude::*;
use vstd::string::StrSliceExecFns;

use crate::items::InventoryItem;
use crate::items::ItemModel;
use crate::items::models;
use crate::text::chars_to_string;
use crate::text::str_to_chars;

verus! {

// ---------------------------------------------------------------------------
// The canonical encoding, as a function on models.
// ---------------------------------------------------------------------------

/// How one character is spelled inside a JSON string: quote and backslash
/// get a backslash escape, everything else stands for itself.
pub open spec fn esc_char(c: char) -> Seq<char> {
    if c == '"' || c == '\\' {
        seq!['\\', c]
    } else {
        seq![c]
    }
}

/// The escaped spelling of a string body.
pub open spec fn json_escape(s: Seq<char>) -> Seq<char>
    decreases s.len(),
{
    if s.len() == 0 {
        Seq::empty()
    } else {
        esc_char(s[0]) + json_escape(s.drop_first())
    }
}

/// The character for one decimal digit value.
pub open spec fn dec_digit(n: int) -> char
    recommends
        0 <= n < 10,
{
    ((n + 48) as u8) as char
}

/// The decimal spelling of a natural number, most significant digit first.
pub open spec fn dec_digits(n: nat) -> Seq<char>
    decreases n,
{
    if n < 10 {
        seq![dec_digit(n as int)]
    } else {
        dec_digits(n / 10).push(dec_digit((n % 10) as int))
    }
}

/// The decimal spelling of a signed integer.
pub open spec fn encode_int(n: int) -> Seq<char> {
    if n < 0 {
        seq!['-'] + dec_digits((-n) as nat)
    } else {
        dec_digits(n as nat)
    }
}

/// The canonical spelling of one record. `tag` names the origin field;
/// records without an origin omit that field.
pub open spec fn encode_item(tag: Seq<char>, m: ItemModel) -> Seq<char> {
    seq!['{'] + (if m.origin.len() > 0 {
        seq!['"'] + tag + "\":\""@ + json_escape(m.origin) + seq!['"'] + ",\"item_type\":\""@
    } else {
        "\"item_type\":\""@
    }) + json_escape(m.item_type) + seq!['"'] + ",\"quantity\":"@ + encode_int(m.quantity)
        + seq!['}']
}

/// The comma-joined spelling of the records of `ms` from position `i` on.
pub open spec fn encode_items_from(tag: Seq<char>, ms: Seq<ItemModel>, i: int) -> Seq<char>
    decreases ms.len() - i,
{
    if i < 0 || i >= ms.len() {
        Seq::empty()
    } else if i == ms.len() - 1 {
        encode_item(tag, ms[i])
    } else {
        encode_item(tag, ms[i]) + seq![','] + encode_items_from(tag, ms, i + 1)
    }
}

/// The canonical spelling of a whole snapshot.
pub open spec fn encode_list(tag: Seq<char>, ms: Seq<ItemModel>) -> Seq<char> {
    seq!['['] + encode_items_from(tag, ms, 0) + seq![']']
}

// ---------------------------------------------------------------------------
// The encoder.
// ---------------------------------------------------------------------------

/// Appends the characters of `lit` to `out`.
fn push_str_chars(out: &mut Vec<char>, lit: &str)
    ensures
        final(out)@ == old(out)@ + lit@,
{
    let n = lit.unicode_len();
    let mut i: usize = 0;
    while i < n
        invariant
            n == lit@.len(),
            i <= n,
            out@ == old(out)@ + lit@.take(i as int),
        decreases n - i,
    {
        let c = lit.get_char(i);
        out.push(c);
        assert(lit@.take(i as int + 1) =~= lit@.take(i as int).push(lit@[i as int]));
        assert(out@ =~= old(out)@ + lit@.take(i as int + 1));
        i = i + 1;
    }
    assert(lit@.take(n as int) =~= lit@);
}

proof fn lemma_json_escape_snoc(s: Seq<char>, c: char)
    ensures
        json_escape(s.push(c)) == json_escape(s) + esc_char(c),
    decreases s.len(),
{
    if s.len() == 0 {
        assert(s.push(c).drop_first() =~= Seq::<char>::empty());
        assert(s.push(c)[0] == c);
        assert(json_escape(s.push(c)) == esc_char(c) + json_escape(Seq::<char>::empty()));
        assert(json_escape(s.push(c)) =~= json_escape(s) + esc_char(c));
    } else {
        assert(s.push(c).drop_first() =~= s.drop_first().push(c));
        lemma_json_escape_snoc(s.drop_first(), c);
        assert(s.push(c)[0] == s[0]);
        assert(s.push(c).len() > 0);
        assert(json_escape(s.push(c)) == esc_char(s[0]) + json_escape(s.drop_first().push(c)));
        assert(json_escape(s.push(c)) =~= json_escape(s) + esc_char(c));
    }
}

/// Appends the escaped body of `s` to `out`.
fn push_escaped(out: &mut Vec<char>, s: &str)
    ensures
        final(out)@ == old(out)@ + json_escape(s@),
{
    let n = s.unicode_len();
    let mut i: usize = 0;
    while i < n
        invariant
            n == s@.len(),
            i <= n,
            out@ == old(out)@ + json_escape(s@.take(i as int)),
        decreases n - i,
    {
        let c = s.get_char(i);
        if c == '"' || c == '\\' {
            out.push('\\');
            out.push(c);
        } else {
            out.push(c);
        }
        proof {
            assert(s@.take(i as int + 1) =~= s@.take(i as int).push(s@[i as int]));
            lemma_json_escape_snoc(s@.take(i as int), s@[i as int]);
            assert(out@ =~= old(out)@ + json_escape(s@.take(i as int + 1)));
        }
        i = i + 1;
    }
    assert(s@.take(n as int) =~= s@);
}

/// Appends the decimal digits of `n` to `out`.
fn push_digits(out: &mut Vec<char>, n: u32)
    ensures
        final(out)@ == old(out)@ + dec_digits(n as nat),
    decreases n,
{
    if n < 10 {
        out.push(((n + 48) as u8) as char);
    } else {
        push_digits(out, n / 10);
        out.push(((n % 10 + 48) as u8) as char);
    }
}

/// Appends the decimal spelling of `n` to `out`.
fn push_int(out: &mut Vec<char>, n: i32)
    ensures
        final(out)@ == old(out)@ + encode_int(n as int),
{
    if n < 0 {
        out.push('-');
        let mag: u32 = (-(n as i64)) as u32;
        assert(mag as nat == (-(n as int)) as nat);
        push_digits(out, mag);
        assert(out@ =~= old(out)@ + encode_int(n as int));
    } else {
        push_digits(out, n as u32);
    }
}

/// Appends the canonical spelling of one record to `out`.
fn push_item(out: &mut Vec<char>, tag: &str, it: &InventoryItem)
    ensures
        final(out)@ == old(out)@ + encode_item(tag@, it@),
{
    out.push('{');
    if !it.origin.as_str().is_empty() {
        out.push('"');
        push_str_chars(out, tag);
        push_str_chars(out, "\":\"");
        push_escaped(out, it.origin.as_str());
        out.push('"');
        push_str_chars(out, ",\"item_type\":\"");
    } else {
        push_str_chars(out, "\"item_type\":\"");
    }
    push_escaped(out, it.item_type.as_str());
    out.push('"');
    push_str_chars(out, ",\"quantity\":");
    push_int(out, it.quantity);
    out.push('}');
    assert(out@ =~= old(out)@ + encode_item(tag@, it@));
}

fn push_items_from(out: &mut Vec<char>, tag: &str, items: &Vec<InventoryItem>, i: usize)
    requires
        i <= items@.len(),
    ensures
        final(out)@ == old(out)@ + encode_items_from(tag@, models(items@), i as int),
    decreases items@.len() - i,
{
    if i < items.len() {
        push_item(out, tag, &items[i]);
        assert(models(items@)[i as int] == items@[i as int]@);
        if i + 1 < items.len() {
            out.push(',');
            push_items_from(out, tag, items, i + 1);
            assert(out@ =~= old(out)@ + encode_items_from(tag@, models(items@), i as int));
        } else {
            assert(out@ =~= old(out)@ + encode_items_from(tag@, models(items@), i as int));
        }
    }
}

/// Serializes a snapshot into its canonical wire text. `tag` names the
/// origin field of tagged records.
pub fn encode_snapshot(tag: &str, items: &Vec<InventoryItem>) -> (r: String)
    ensures
        r@ == encode_list(tag@, models(items@)),
{
    let mut out: Vec<char> = Vec::new();
    out.push('[');
    push_items_from(&mut out, tag, items, 0);
    out.push(']');
    assert(out@ =~= encode_list(tag@, models(items@)));
    chars_to_string(&out)
}

// ---------------------------------------------------------------------------
// The decoder's grammar, as recursive functions over positions. Each takes
// the whole text and a position and yields the parsed value and the
// position after it, or nothing if the text there is not canonical.
// ---------------------------------------------------------------------------

/// Whether `c` is a decimal digit.
pub open spec fn is_digit(c: char) -> bool {
    48 <= c as u32 <= 57
}

/// The value of a digit character.
pub open spec fn digit_val(c: char) -> int {
    c as u32 - 48
}

/// Whether the text at position `i` spells out `lit`.
pub open spec fn sp_match(s: Seq<char>, i: int, lit: Seq<char>) -> bool {
    0 <= i && i + lit.len() <= s.len() && s.subrange(i, i + lit.len()) == lit
}

/// A string body starting right after its opening quote, up to and
/// including the closing quote.
pub open spec fn sp_string(s: Seq<char>, i: int) -> Option<(Seq<char>, int)>
    decreases s.len() - i,
{
    if i < 0 || i >= s.len() {
        None
    } else if s[i] == '"' {
        Some((Seq::empty(), i + 1))
    } else if s[i] == '\\' {
        if i + 1 < s.len() && (s[i + 1] == '"' || s[i + 1] == '\\') {
            match sp_string(s, i + 2) {
                None => None,
                Some((t, j)) => Some((seq![s[i + 1]] + t, j)),
            }
        } else {
            None
        }
    } else {
        match sp_string(s, i + 1) {
            None => None,
            Some((t, j)) => Some((seq![s[i]] + t, j)),
        }
    }
}

/// A run of one to ten digits, folded onto `acc`; more than ten digits is
/// rejected so that the value stays bounded.
pub open spec fn sp_digits(s: Seq<char>, i: int, acc: int, cnt: int) -> Option<(int, int)>
    decreases s.len() - i,
{
    if 0 <= i && i < s.len() && is_digit(s[i]) {
        if cnt >= 10 {
            None
        } else {
            sp_digits(s, i + 1, acc * 10 + digit_val(s[i]), cnt + 1)
        }
    } else {
        if cnt > 0 {
            Some((acc, i))
        } else {
            None
        }
    }
}

/// An unsigned decimal number without leading zeros.
pub open spec fn sp_uint(s: Seq<char>, i: int) -> Option<(int, int)> {
    match sp_digits(s, i, 0, 0) {
        None => None,
        Some((m, j)) => if s[i] == '0' && j != i + 1 {
            None
        } else {
            Some((m, j))
        },
    }
}

/// A signed decimal number in the range of the ledger's counters.
pub open spec fn sp_int(s: Seq<char>, i: int) -> Option<(int, int)> {
    if 0 <= i && i < s.len() && s[i] == '-' {
        match sp_uint(s, i + 1) {
            None => None,
            Some((m, j)) => if m > 0 && -m >= i32::MIN as int {
                Some((-m, j))
            } else {
                None
            },
        }
    } else {
        match sp_uint(s, i) {
            None => None,
            Some((m, j)) => if m <= i32::MAX as int {
                Some((m, j))
            } else {
                None
            },
        }
    }
}

/// The tail of a record after its fields: the quantity field and the
/// closing brace.
pub open spec fn sp_item_qty(s: Seq<char>, i: int, origin: Seq<char>, ty: Seq<char>) -> Option<
    (ItemModel, int),
> {
    if !sp_match(s, i, ",\"quantity\":"@) {
        None
    } else {
        match sp_int(s, i + ",\"quantity\":"@.len()) {
            None => None,
            Some((q, j)) => if sp_match(s, j, seq!['}']) {
                Some((ItemModel { origin, item_type: ty, quantity: q }, j + 1))
            } else {
                None
            },
        }
    }
}

/// One record: braces around an optional origin field named `tag`, the
/// item name, and the quantity.
pub open spec fn sp_item(tag: Seq<char>, s: Seq<char>, i: int) -> Option<(ItemModel, int)> {
    if !sp_match(s, i, seq!['{']) {
        None
    } else if sp_match(s, i + 1, "\"item_type\":\""@) {
        match sp_string(s, i + 1 + "\"item_type\":\""@.len()) {
            None => None,
            Some((ty, j)) => sp_item_qty(s, j, Seq::empty(), ty),
        }
    } else if sp_match(s, i + 1, seq!['"'] + tag + "\":\""@) {
        match sp_string(s, i + 1 + (seq!['"'] + tag + "\":\""@).len()) {
            None => None,
            Some((origin, j)) => if origin.len() == 0 {
                None
            } else if !sp_match(s, j, ",\"item_type\":\""@) {
                None
            } else {
                match sp_string(s, j + ",\"item_type\":\""@.len()) {
                    None => None,
                    Some((ty, k)) => sp_item_qty(s, k, origin, ty),
                }
            },
        }
    } else {
        None
    }
}

/// One or more comma-separated records followed by the closing bracket.
pub open spec fn sp_items(tag: Seq<char>, s: Seq<char>, i: int) -> Option<(Seq<ItemModel>, int)>
    decreases s.len() - i,
{
    match sp_item(tag, s, i) {
        None => None,
        Some((m, j)) => if !(i < j && j <= s.len()) {
            None
        } else if sp_match(s, j, seq![',']) {
            match sp_items(tag, s, j + 1) {
                None => None,
                Some((ms, k)) => Some((seq![m] + ms, k)),
            }
        } else if sp_match(s, j, seq![']']) {
            Some((seq![m], j + 1))
        } else {
            None
        },
    }
}

/// A whole snapshot list.
pub open spec fn sp_list(tag: Seq<char>, s: Seq<char>, i: int) -> Option<(Seq<ItemModel>, int)> {
    if !sp_match(s, i, seq!['[']) {
        None
    } else if sp_match(s, i + 1, seq![']']) {
        Some((Seq::empty(), i + 2))
    } else {
        sp_items(tag, s, i + 1)
    }
}

/// What a snapshot text means: the records of the list, provided the text
/// is exactly one canonical list.
pub open spec fn sp_decode(tag: Seq<char>, s: Seq<char>) -> Option<Seq<ItemModel>> {
    match sp_list(tag, s, 0) {
        None => None,
        Some((ms, j)) => if j == s.len() {
            Some(ms)
        } else {
            None
        },
    }
}

/// What a single-record text means, for request bodies that carry one
/// record rather than a list.
pub open spec fn sp_decode_item(tag: Seq<char>, s: Seq<char>) -> Option<ItemModel> {
    match sp_item(tag, s, 0) {
        None => None,
        Some((m, j)) => if j == s.len() {
            Some(m)
        } else {
            None
        },
    }
}

// ---------------------------------------------------------------------------
// The decoder.
// ---------------------------------------------------------------------------

/// Powers of ten, for bounding the digit accumulator.
pub open spec fn p10(k: int) -> int
    decreases k,
{
    if k <= 0 {
        1
    } else {
        10 * p10(k - 1)
    }
}

proof fn lemma_p10_le(a: int, b: int)
    requires
        0 <= a <= b,
    ensures
        p10(a) <= p10(b),
    decreases b,
{
    if a < b {
        lemma_p10_le(a, b - 1);
        assert(p10(b) == 10 * p10(b - 1));
        lemma_p10_pos(b - 1);
    }
}

proof fn lemma_p10_pos(k: int)
    ensures
        p10(k) >= 1,
    decreases k,
{
    if k > 0 {
        lemma_p10_pos(k - 1);
    }
}

/// Whether the text at `i` is the single character `c`.
fn ex_match_char(s: &Vec<char>, i: usize, c: char) -> (r: bool)
    ensures
        r == sp_match(s@, i as int, seq![c]),
{
    if i < s.len() && s[i] == c {
        assert(s@.subrange(i as int, i as int + 1) =~= seq![c]);
        true
    } else {
        assert(!sp_match(s@, i as int, seq![c])) by {
            if sp_match(s@, i as int, seq![c]) {
                assert(s@.subrange(i as int, i as int + 1)[0] == s@[i as int]);
            }
        }
        false
    }
}

/// Whether the text at `i` spells out `lit`.
fn ex_match(s: &Vec<char>, i: usize, lit: &str) -> (r: bool)
    ensures
        r == sp_match(s@, i as int, lit@),
{
    let n = lit.unicode_len();
    let slen = s.len();
    if i > slen || n > slen - i {
        return false;
    }
    let mut k: usize = 0;
    while k < n
        invariant
            slen == s@.len(),
            i + n <= slen,
            n == lit@.len(),
            k <= n,
            forall|m: int| 0 <= m < k ==> s@[i + m] == lit@[m],
        decreases n - k,
    {
        let c = lit.get_char(k);
        if s[i + k] != c {
            proof {
                if sp_match(s@, i as int, lit@) {
                    assert(s@.subrange(i as int, i as int + lit@.len())[k as int]
                        == lit@[k as int]);
                }
            }
            return false;
        }
        k = k + 1;
    }
    assert(s@.subrange(i as int, i as int + lit@.len()) =~= lit@);
    true
}

/// A match of a concatenation is a match of each part in turn.
proof fn lemma_match_concat(s: Seq<char>, i: int, a: Seq<char>, b: Seq<char>)
    ensures
        sp_match(s, i, a + b) == (sp_match(s, i, a) && sp_match(s, i + a.len(), b)),
{
    if sp_match(s, i, a) && sp_match(s, i + a.len(), b) {
        assert forall|k: int| 0 <= k < (a + b).len() implies s.subrange(
            i,
            i + (a + b).len(),
        )[k] == (a + b)[k] by {
            if k < a.len() {
                assert(s.subrange(i, i + a.len())[k] == a[k]);
            } else {
                assert(s.subrange(i + a.len(), i + a.len() + b.len())[k - a.len()] == b[k
                    - a.len()]);
            }
        }
        assert(s.subrange(i, i + (a + b).len()) =~= a + b);
    }
    if sp_match(s, i, a + b) {
        assert forall|k: int| 0 <= k < a.len() implies s.subrange(i, i + a.len())[k] == a[k] by {
            assert(s.subrange(i, i + (a + b).len())[k] == (a + b)[k]);
        }
        assert(s.subrange(i, i + a.len()) =~= a);
        assert forall|k: int| 0 <= k < b.len() implies s.subrange(
            i + a.len(),
            i + a.len() + b.len(),
        )[k] == b[k] by {
            assert(s.subrange(i, i + (a + b).len())[k + a.len()] == (a + b)[k + a.len()]);
        }
        assert(s.subrange(i + a.len(), i + a.len() + b.len()) =~= b);
    }
}

/// Whether the text at `i` opens an origin field: a quote, the tag, and
/// the separator up to the origin value's opening quote.
fn ex_match_tag_open(s: &Vec<char>, i: usize, tag: &str) -> (r: bool)
    ensures
        r == sp_match(s@, i as int, seq!['"'] + tag@ + "\":\""@),
{
    proof {
        lemma_match_concat(s@, i as int, seq!['"'] + tag@, "\":\""@);
        lemma_match_concat(s@, i as int, seq!['"'], tag@);
    }
    if !ex_match_char(s, i, '"') {
        return false;
    }
    let slen = s.len();
    assert(i + 1 <= slen);
    let tlen = tag.unicode_len();
    if !ex_match(s, i + 1, tag) {
        return false;
    }
    assert(i + 1 + tlen <= slen);
    ex_match(s, i + 1 + tlen, "\":\"")
}

/// Reads a string body up to its closing quote.
fn ex_string(s: &Vec<char>, i: usize) -> (r: Option<(Vec<char>, usize)>)
    ensures
        match r {
            None => sp_string(s@, i as int) is None,
            Some((t, j)) => sp_string(s@, i as int) == Some((t@, j as int)),
        },
    decreases s@.len() - i,
{
    if i >= s.len() {
        None
    } else if s[i] == '"' {
        let t: Vec<char> = Vec::new();
        Some((t, i + 1))
    } else if s[i] == '\\' {
        if i + 1 < s.len() && (s[i + 1] == '"' || s[i + 1] == '\\') {
            match ex_string(s, i + 2) {
                None => None,
                Some((t, j)) => {
                    let mut t = t;
                    let ghost t0 = t@;
                    t.insert(0, s[i + 1]);
                    assert(t@ =~= seq![s@[i + 1]] + t0);
                    Some((t, j))
                },
            }
        } else {
            None
        }
    } else {
        match ex_string(s, i + 1) {
            None => None,
            Some((t, j)) => {
                let mut t = t;
                let ghost t0 = t@;
                t.insert(0, s[i]);
                assert(t@ =~= seq![s@[i as int]] + t0);
                Some((t, j))
            },
        }
    }
}

/// Folds a run of digits onto `acc`.
fn ex_digits(s: &Vec<char>, i: usize, acc: u64, cnt: u8) -> (r: Option<(u64, usize)>)
    requires
        cnt <= 10,
        acc < p10(cnt as int),
    ensures
        match r {
            None => sp_digits(s@, i as int, acc as int, cnt as int) is None,
            Some((m, j)) => sp_digits(s@, i as int, acc as int, cnt as int) == Some(
                (m as int, j as int),
            ) && m < p10(10),
        },
    decreases s@.len() - i,
{
    proof {
        lemma_p10_le(cnt as int, 10);
        assert(p10(10) == 10000000000) by {
            reveal_with_fuel(p10, 11);
        }
    }
    if i < s.len() && 48 <= s[i] as u32 && s[i] as u32 <= 57 {
        if cnt >= 10 {
            None
        } else {
            let d: u64 = (s[i] as u32 - 48) as u64;
            proof {
                let pc = p10(cnt as int);
                assert(p10(cnt as int + 1) == 10 * pc);
                assert((acc as int) * 10 + (d as int) < 10 * pc) by (nonlinear_arith)
                    requires
                        (acc as int) < pc,
                        (d as int) <= 9,
                ;
                lemma_p10_le(cnt as int + 1, 10);
            }
            ex_digits(s, i + 1, acc * 10 + d, cnt + 1)
        }
    } else {
        if cnt > 0 {
            Some((acc, i))
        } else {
            None
        }
    }
}

/// Reads an unsigned number without leading zeros.
fn ex_uint(s: &Vec<char>, i: usize) -> (r: Option<(u64, usize)>)
    ensures
        match r {
            None => sp_uint(s@, i as int) is None,
            Some((m, j)) => sp_uint(s@, i as int) == Some((m as int, j as int)) && m < p10(10),
        },
{
    match ex_digits(s, i, 0, 0) {
        None => None,
        Some((m, j)) => {
            proof {
                if !(0 <= i as int && (i as int) < s@.len() && is_digit(s@[i as int])) {
                    assert(sp_digits(s@, i as int, 0, 0) is None);
                }
            }
            let slen = s.len();
            assert(i < slen);
            if s[i] == '0' && j != i + 1 {
                None
            } else {
                Some((m, j))
            }
        },
    }
}

/// Reads a signed number in counter range.
fn ex_int(s: &Vec<char>, i: usize) -> (r: Option<(i32, usize)>)
    ensures
        match r {
            None => sp_int(s@, i as int) is None,
            Some((q, j)) => sp_int(s@, i as int) == Some((q as int, j as int)),
        },
{
    if i < s.len() && s[i] == '-' {
        match ex_uint(s, i + 1) {
            None => None,
            Some((m, j)) => {
                if m > 0 && m <= 2147483648u64 {
                    Some(((-(m as i64)) as i32, j))
                } else {
                    None
                }
            },
        }
    } else {
        match ex_uint(s, i) {
            None => None,
            Some((m, j)) => {
                if m <= 2147483647u64 {
                    Some((m as i32, j))
                } else {
                    None
                }
            },
        }
    }
}

/// Reads the quantity field and closing brace of a record.
fn ex_item_qty(s: &Vec<char>, i: usize, origin: String, ty: String) -> (r: Option<
    (InventoryItem, usize),
>)
    ensures
        match r {
            None => sp_item_qty(s@, i as int, origin@, ty@) is None,
            Some((it, j)) => sp_item_qty(s@, i as int, origin@, ty@) == Some((it@, j as int)),
        },
{
    if !ex_match(s, i, ",\"quantity\":") {
        None
    } else {
        let llen = ",\"quantity\":".unicode_len();
        let slen = s.len();
        assert(i + llen <= slen);
        match ex_int(s, i + llen) {
            None => None,
            Some((q, j)) => {
                if ex_match_char(s, j, '}') {
                    assert(j + 1 <= s@.len() && s@.len() == s.len());
                    Some((InventoryItem { origin, item_type: ty, quantity: q }, j + 1))
                } else {
                    None
                }
            },
        }
    }
}

/// Reads one record.
fn ex_item(tag: &str, s: &Vec<char>, i: usize) -> (r: Option<(InventoryItem, usize)>)
    ensures
        match r {
            None => sp_item(tag@, s@, i as int) is None,
            Some((it, j)) => sp_item(tag@, s@, i as int) == Some((it@, j as int)),
        },
{
    if !ex_match_char(s, i, '{') {
        return None;
    }
    let slen = s.len();
    assert(i + 1 <= slen);
    if ex_match(s, i + 1, "\"item_type\":\"") {
        let l1 = "\"item_type\":\"".unicode_len();
        assert(i + 1 + l1 <= slen);
        match ex_string(s, i + 1 + l1) {
            None => None,
            Some((ty, j)) => ex_item_qty(s, j, String::new(), chars_to_string(&ty)),
        }
    } else if ex_match_tag_open(s, i + 1, tag) {
        let tlen = tag.unicode_len();
        let sep = "\":\"".unicode_len();
        assert(i + 1 + 1 + tlen + sep <= slen);
        let l = 1 + tlen + sep;
        match ex_string(s, i + 1 + l) {
            None => None,
            Some((origin, j)) => {
                if origin.len() == 0 {
                    None
                } else if !ex_match(s, j, ",\"item_type\":\"") {
                    None
                } else {
                    let l2 = ",\"item_type\":\"".unicode_len();
                    assert(j + l2 <= slen);
                    match ex_string(s, j + l2) {
                        None => None,
                        Some((ty, k)) => ex_item_qty(
                            s,
                            k,
                            chars_to_string(&origin),
                            chars_to_string(&ty),
                        ),
                    }
                }
            },
        }
    } else {
        None
    }
}

/// Reads the records of a non-empty list, up to the closing bracket.
fn ex_items(tag: &str, s: &Vec<char>, i: usize) -> (r: Option<(Vec<InventoryItem>, usize)>)
    ensures
        match r {
            None => sp_items(tag@, s@, i as int) is None,
            Some((v, j)) => sp_items(tag@, s@, i as int) == Some((models(v@), j as int)),
        },
    decreases s@.len() - i,
{
    match ex_item(tag, s, i) {
        None => None,
        Some((it, j)) => {
            if !(i < j && j <= s.len()) {
                None
            } else if ex_match_char(s, j, ',') {
                match ex_items(tag, s, j + 1) {
                    None => None,
                    Some((rest, k)) => {
                        let mut v = rest;
                        let ghost r0 = v@;
                        v.insert(0, it);
                        assert(models(v@) =~= seq![it@] + models(r0));
                        Some((v, k))
                    },
                }
            } else if ex_match_char(s, j, ']') {
                let mut v: Vec<InventoryItem> = Vec::new();
                v.push(it);
                assert(models(v@) =~= seq![it@]);
                Some((v, j + 1))
            } else {
                None
            }
        },
    }
}

/// Reads a whole list.
fn ex_list(tag: &str, s: &Vec<char>, i: usize) -> (r: Option<(Vec<InventoryItem>, usize)>)
    ensures
        match r {
            None => sp_list(tag@, s@, i as int) is None,
            Some((v, j)) => sp_list(tag@, s@, i as int) == Some((models(v@), j as int)),
        },
{
    if !ex_match_char(s, i, '[') {
        return None;
    }
    let slen = s.len();
    assert(i + 1 <= slen);
    if ex_match_char(s, i + 1, ']') {
        let v: Vec<InventoryItem> = Vec::new();
        assert(models(v@) =~= Seq::<ItemModel>::empty());
        assert(i + 2 <= slen);
        Some((v, i + 2))
    } else {
        ex_items(tag, s, i + 1)
    }
}

/// Parses a snapshot text. Yields the records when `s` is exactly one
/// canonical snapshot list, and nothing on any other text.
pub fn decode_snapshot(tag: &str, s: &str) -> (r: Option<Vec<InventoryItem>>)
    ensures
        match r {
            None => sp_decode(tag@, s@) is None,
            Some(v) => sp_decode(tag@, s@) == Some(models(v@)),
        },
{
    let cs = str_to_chars(s);
    match ex_list(tag, &cs, 0) {
        None => None,
        Some((v, j)) => {
            if j == cs.len() {
                Some(v)
            } else {
                None
            }
        },
    }
}

/// The number a stored counter text denotes: its value when the text is
/// exactly one canonical decimal, and zero on anything else, as counter
/// reads fall back to zero rather than fail.
pub open spec fn str_int(s: Seq<char>) -> int {
    match sp_int(s, 0) {
        None => 0,
        Some((q, j)) => if j == s.len() {
            q
        } else {
            0
        },
    }
}

/// Reads a counter text, falling back to zero on anything that is not a
/// canonical decimal.
pub fn parse_i32(s: &str) -> (r: i32)
    ensures
        r as int == str_int(s@),
{
    let cs = str_to_chars(s);
    match ex_int(&cs, 0) {
        None => 0,
        Some((q, j)) => {
            if j == cs.len() {
                q
            } else {
                0
            }
        },
    }
}

/// The decimal text of a counter value.
pub fn int_to_string(n: i32) -> (r: String)
    ensures
        r@ == encode_int(n as int),
{
    let mut out: Vec<char> = Vec::new();
    push_int(&mut out, n);
    chars_to_string(&out)
}

// ---------------------------------------------------------------------------
// Round trip: the decoder inverts the encoder.
// ---------------------------------------------------------------------------

/// An origin field name the codec can distinguish from the other fields:
/// not the name `item_type` itself, and free of quotes.
pub open spec fn tag_wf(tag: Seq<char>) -> bool {
    tag != "item_type"@ && (forall|k: int| 0 <= k < tag.len() ==> tag[k] != '"')
}

/// A model the wire format can carry: the quantity is counter-sized.
pub open spec fn model_wf(m: ItemModel) -> bool {
    i32::MIN as int <= m.quantity <= i32::MAX as int
}

proof fn lemma_match_char(s: Seq<char>, i: int, c: char)
    ensures
        sp_match(s, i, seq![c]) == (0 <= i && i < s.len() && s[i] == c),
{
    if sp_match(s, i, seq![c]) {
        assert(s.subrange(i, i + 1)[0] == c);
    }
    if 0 <= i && i < s.len() && s[i] == c {
        assert(s.subrange(i, i + 1) =~= seq![c]);
    }
}

/// Two matches at one position agree on the shorter length.
proof fn lemma_match_prefix(s: Seq<char>, i: int, a: Seq<char>, b: Seq<char>)
    requires
        sp_match(s, i, a),
        sp_match(s, i, b),
        a.len() <= b.len(),
    ensures
        a == b.subrange(0, a.len() as int),
{
    assert forall|k: int| 0 <= k < a.len() implies a[k] == b.subrange(0, a.len() as int)[k] by {
        assert(s.subrange(i, i + a.len())[k] == a[k]);
        assert(s.subrange(i, i + b.len())[k] == b[k]);
    }
    assert(a =~= b.subrange(0, a.len() as int));
}

/// Parsing a string body at an escaped spelling followed by a quote yields
/// the original body.
proof fn lemma_string_rt(s: Seq<char>, i: int, content: Seq<char>)
    requires
        sp_match(s, i, json_escape(content) + seq!['"']),
    ensures
        sp_string(s, i) == Some::<(Seq<char>, int)>(
            (content, i + json_escape(content).len() + 1),
        ),
    decreases content.len(),
{
    lemma_match_concat(s, i, json_escape(content), seq!['"']);
    lemma_match_char(s, i + json_escape(content).len(), '"');
    if content.len() == 0 {
        assert(sp_string(s, i) == Some::<(Seq<char>, int)>((Seq::empty(), i + 1)));
        assert(content =~= Seq::<char>::empty());
    } else {
        let c = content[0];
        let rest = content.drop_first();
        assert(json_escape(content) == esc_char(c) + json_escape(rest));
        lemma_match_concat(s, i, esc_char(c), json_escape(rest));
        assert((esc_char(c) + json_escape(rest)) + seq!['"'] =~= esc_char(c) + (json_escape(rest)
            + seq!['"']));
        lemma_match_concat(s, i, esc_char(c), json_escape(rest) + seq!['"']);
        lemma_string_rt(s, i + esc_char(c).len(), rest);
        if c == '"' || c == '\\' {
            assert(esc_char(c) == seq!['\\', c]);
            assert(esc_char(c) =~= seq!['\\'] + seq![c]);
            lemma_match_concat(s, i, seq!['\\'], seq![c]);
            lemma_match_char(s, i, '\\');
            lemma_match_char(s, i + 1, c);
            assert(s[i] == '\\');
            assert(s[i + 1] == c);
            assert(sp_string(s, i) == Some::<(Seq<char>, int)>(
                (seq![c] + rest, i + 2 + json_escape(rest).len() + 1),
            ));
            assert(seq![c] + rest =~= content);
        } else {
            assert(esc_char(c) =~= seq![c]);
            lemma_match_char(s, i, c);
            assert(s[i] == c);
            assert(sp_string(s, i) == Some::<(Seq<char>, int)>(
                (seq![c] + rest, i + 1 + json_escape(rest).len() + 1),
            ));
            assert(seq![c] + rest =~= content);
        }
    }
}

proof fn lemma_dec_digits_are_digits(n: nat)
    ensures
        forall|k: int|
            0 <= k < dec_digits(n).len() ==> #[trigger] is_digit(dec_digits(n)[k]),
    decreases n,
{
    if n < 10 {
        assert(dec_digits(n)[0] == dec_digit(n as int));
        assert(is_digit(dec_digit(n as int)));
    } else {
        lemma_dec_digits_are_digits(n / 10);
        assert forall|k: int| 0 <= k < dec_digits(n).len() implies #[trigger] is_digit(
            dec_digits(n)[k],
        ) by {
            if k < dec_digits(n / 10).len() {
                assert(dec_digits(n)[k] == dec_digits(n / 10)[k]);
            } else {
                assert(dec_digits(n)[k] == dec_digit((n % 10) as int));
            }
        }
    }
}

proof fn lemma_dec_digits_first(n: nat)
    ensures
        dec_digits(n).len() >= 1,
        n > 0 ==> dec_digits(n)[0] != '0',
        n == 0 ==> dec_digits(n) == seq!['0'],
    decreases n,
{
    if n < 10 {
        if n == 0 {
            assert(dec_digit(0) == '0');
        } else {
            assert(dec_digit(n as int) as u32 == n + 48);
        }
    } else {
        lemma_dec_digits_first(n / 10);
        assert(dec_digits(n)[0] == dec_digits(n / 10)[0]);
    }
}

proof fn lemma_dec_digits_len_le(n: nat, k: int)
    requires
        1 <= k,
        n < p10(k),
    ensures
        dec_digits(n).len() <= k,
    decreases n,
{
    if n < 10 {
    } else {
        vstd::arithmetic::div_mod::lemma_fundamental_div_mod(n as int, 10);
        if k == 1 {
            assert(p10(1) == 10 * p10(0));
            assert(p10(0) == 1);
            assert(false);
        }
        assert(p10(k) == 10 * p10(k - 1));
        assert(10 * (n as int / 10) <= n as int);
        assert(n as int / 10 < p10(k - 1));
        lemma_dec_digits_len_le(n / 10, k - 1);
    }
}

/// Consuming one digit block folds its value onto the accumulator.
proof fn lemma_digits_chunk(s: Seq<char>, i: int, acc: int, cnt: int, n: nat)
    requires
        0 <= cnt,
        cnt + dec_digits(n).len() <= 10,
        sp_match(s, i, dec_digits(n)),
    ensures
        sp_digits(s, i, acc, cnt) == sp_digits(
            s,
            i + dec_digits(n).len(),
            acc * p10(dec_digits(n).len() as int) + n,
            cnt + dec_digits(n).len(),
        ),
    decreases n,
{
    lemma_dec_digits_are_digits(n);
    if n < 10 {
        assert(dec_digits(n) == seq![dec_digit(n as int)]);
        lemma_match_char(s, i, dec_digit(n as int));
        assert(s[i] == dec_digit(n as int));
        assert(is_digit(s[i]));
        assert(digit_val(dec_digit(n as int)) == n);
        assert(p10(1) == 10 * p10(0));
        assert(p10(0) == 1);
        assert(sp_digits(s, i, acc, cnt) == sp_digits(s, i + 1, acc * 10 + n, cnt + 1));
    } else {
        let dd = dec_digits(n / 10);
        let lp = dd.len() as int;
        let d = dec_digit((n % 10) as int);
        assert(dec_digits(n) =~= dd + seq![d]);
        lemma_match_concat(s, i, dd, seq![d]);
        lemma_match_char(s, i + lp, d);
        lemma_digits_chunk(s, i, acc, cnt, n / 10);
        let a2 = acc * p10(lp) + n as int / 10;
        assert(s[i + lp] == d);
        assert(is_digit(d));
        assert(digit_val(d) == n % 10);
        assert(cnt + lp < 10);
        assert(sp_digits(s, i + lp, a2, cnt + lp) == sp_digits(
            s,
            i + lp + 1,
            a2 * 10 + n % 10,
            cnt + lp + 1,
        ));
        vstd::arithmetic::div_mod::lemma_fundamental_div_mod(n as int, 10);
        assert(p10(lp + 1) == 10 * p10(lp));
        let pl = p10(lp);
        assert((acc * pl + n as int / 10) * 10 + n as int % 10 == acc * (10 * pl) + (10 * (
        n as int / 10) + n as int % 10)) by (nonlinear_arith);
        assert(a2 * 10 + n % 10 == acc * p10(lp + 1) + n);
    }
}

/// Parsing an unsigned number at its decimal spelling yields its value,
/// provided no digit follows it.
proof fn lemma_uint_rt(s: Seq<char>, i: int, n: nat)
    requires
        n <= 0x80000000,
        sp_match(s, i, dec_digits(n)),
        i + dec_digits(n).len() == s.len() || !is_digit(s[i + dec_digits(n).len()]),
    ensures
        sp_uint(s, i) == Some::<(int, int)>((n as int, i + dec_digits(n).len())),
{
    lemma_dec_digits_first(n);
    assert(p10(10) == 10000000000) by {
        reveal_with_fuel(p10, 11);
    }
    lemma_dec_digits_len_le(n, 10);
    lemma_digits_chunk(s, i, 0, 0, n);
    let lp = dec_digits(n).len() as int;
    assert(0 * p10(lp) == 0) by (nonlinear_arith);
    assert(sp_digits(s, i, 0, 0) == sp_digits(s, i + lp, n as int, lp));
    assert(sp_digits(s, i + lp, n as int, lp) == Some::<(int, int)>((n as int, i + lp)));
    assert(s[i] == dec_digits(n)[0]) by {
        assert(s.subrange(i, i + lp)[0] == dec_digits(n)[0]);
    }
    if n == 0 {
        assert(dec_digits(n) == seq!['0']);
        assert(lp == 1);
    } else {
        assert(s[i] != '0');
    }
}

/// Parsing a signed number at its decimal spelling yields its value,
/// provided no digit follows it.
proof fn lemma_int_rt(s: Seq<char>, i: int, q: int)
    requires
        i32::MIN as int <= q <= i32::MAX as int,
        sp_match(s, i, encode_int(q)),
        i + encode_int(q).len() == s.len() || !is_digit(s[i + encode_int(q).len()]),
    ensures
        sp_int(s, i) == Some::<(int, int)>((q, i + encode_int(q).len())),
{
    if q < 0 {
        let n = (-q) as nat;
        assert(encode_int(q) == seq!['-'] + dec_digits(n));
        lemma_match_concat(s, i, seq!['-'], dec_digits(n));
        lemma_match_char(s, i, '-');
        lemma_uint_rt(s, i + 1, n);
        assert(s[i] == '-');
    } else {
        let n = q as nat;
        assert(encode_int(q) == dec_digits(n));
        lemma_dec_digits_are_digits(n);
        lemma_dec_digits_first(n);
        assert(s[i] == dec_digits(n)[0]) by {
            assert(s.subrange(i, i + dec_digits(n).len())[0] == dec_digits(n)[0]);
        }
        assert(is_digit(s[i]));
        assert(s[i] != '-');
        lemma_uint_rt(s, i, n);
    }
}

/// The fixed fields of a record cannot be mistaken for an origin field of
/// a well-formed tag: at an encoded record with an origin, the untagged
/// branch of the grammar fails.
proof fn lemma_tag_branch(s: Seq<char>, i: int, tag: Seq<char>)
    requires
        tag_wf(tag),
        sp_match(s, i, seq!['"'] + tag + "\":\""@),
    ensures
        !sp_match(s, i, "\"item_type\":\""@),
{
    reveal_strlit("\"item_type\":\"");
    reveal_strlit("item_type");
    reveal_strlit("\":\"");
    let kq = "\"item_type\":\""@;
    let t = seq!['"'] + tag + "\":\""@;
    assert(kq.len() == 13);
    if sp_match(s, i, kq) {
        if t.len() >= 13 {
            lemma_match_prefix(s, i, kq, t);
            if tag.len() == 9 {
                assert forall|k: int| 0 <= k < 9 implies tag[k] == "item_type"@[k] by {
                    assert(kq[k + 1] == t.subrange(0, 13)[k + 1]);
                    assert(t[k + 1] == tag[k]);
                }
                assert(tag =~= "item_type"@);
            } else {
                assert(tag.len() > 9);
                assert(kq[10] == t.subrange(0, 13)[10]);
                assert(t[10] == tag[9]);
                assert(kq[10] == '"');
                assert(tag[9] == '"');
            }
        } else {
            lemma_match_prefix(s, i, t, kq);
            assert(tag.len() < 9);
            let k = 1 + tag.len() as int;
            assert(t[k] == kq.subrange(0, t.len() as int)[k]);
            assert(t[k] == '"');
            assert(1 <= k < 10);
            assert(kq[k] != '"');
        }
    }
}

/// Parsing one record at its canonical spelling yields its model.
proof fn lemma_item_rt(tag: Seq<char>, s: Seq<char>, i: int, m: ItemModel)
    requires
        tag_wf(tag),
        model_wf(m),
        sp_match(s, i, encode_item(tag, m)),
    ensures
        sp_item(tag, s, i) == Some::<(ItemModel, int)>((m, i + encode_item(tag, m).len())),
{
    let e = encode_item(tag, m);
    let fields: Seq<char> = if m.origin.len() > 0 {
        seq!['"'] + tag + "\":\""@ + json_escape(m.origin) + seq!['"'] + ",\"item_type\":\""@
    } else {
        "\"item_type\":\""@
    };
    let tail = json_escape(m.item_type) + seq!['"'] + ",\"quantity\":"@ + encode_int(m.quantity)
        + seq!['}'];
    assert(e =~= seq!['{'] + (fields + tail));
    lemma_match_concat(s, i, seq!['{'], fields + tail);
    lemma_match_char(s, i, '{');
    lemma_match_concat(s, i + 1, fields, tail);
    let it = i + 1 + fields.len();

    // The shared tail: item name, quantity, closing brace.
    assert(tail =~= (json_escape(m.item_type) + seq!['"']) + ((",\"quantity\":"@ + encode_int(
        m.quantity,
    )) + seq!['}']));
    lemma_match_concat(s, it, json_escape(m.item_type) + seq!['"'], (",\"quantity\":"@
        + encode_int(m.quantity)) + seq!['}']);
    lemma_string_rt(s, it, m.item_type);
    let jq = it + json_escape(m.item_type).len() + 1;
    lemma_match_concat(s, jq, ",\"quantity\":"@ + encode_int(m.quantity), seq!['}']);
    lemma_match_concat(s, jq, ",\"quantity\":"@, encode_int(m.quantity));
    let ji = jq + ",\"quantity\":"@.len();
    let jz = ji + encode_int(m.quantity).len();
    lemma_match_char(s, jz, '}');
    assert(s[jz] == '}');
    assert(!is_digit('}'));
    lemma_int_rt(s, ji, m.quantity);
    assert(sp_item_qty(s, jq, m.origin, m.item_type) == Some::<(ItemModel, int)>(
        (ItemModel { origin: m.origin, item_type: m.item_type, quantity: m.quantity }, jz + 1),
    ));
    assert(ItemModel { origin: m.origin, item_type: m.item_type, quantity: m.quantity } == m);
    assert(jz + 1 == i + e.len());

    if m.origin.len() > 0 {
        let t = seq!['"'] + tag + "\":\""@;
        assert(fields =~= t + (json_escape(m.origin) + (seq!['"'] + ",\"item_type\":\""@)));
        lemma_match_concat(s, i + 1, t, json_escape(m.origin) + (seq!['"']
            + ",\"item_type\":\""@));
        lemma_tag_branch(s, i + 1, tag);
        let io = i + 1 + t.len();
        assert(json_escape(m.origin) + (seq!['"'] + ",\"item_type\":\""@) =~= (json_escape(
            m.origin,
        ) + seq!['"']) + ",\"item_type\":\""@);
        lemma_match_concat(s, io, json_escape(m.origin) + seq!['"'], ",\"item_type\":\""@);
        lemma_string_rt(s, io, m.origin);
        let jo = io + json_escape(m.origin).len() + 1;
        assert(sp_match(s, jo, ",\"item_type\":\""@));
        assert(",\"item_type\":\""@ =~= seq![','] + "\"item_type\":\""@) by {
            reveal_strlit(",\"item_type\":\"");
            reveal_strlit("\"item_type\":\"");
        }
        lemma_match_concat(s, jo, seq![','], "\"item_type\":\""@);
        assert(jo + ",\"item_type\":\""@.len() == it);
        assert(sp_item(tag, s, i) == Some::<(ItemModel, int)>((m, i + e.len())));
    } else {
        assert(sp_match(s, i + 1, "\"item_type\":\""@));
        assert(i + 1 + "\"item_type\":\""@.len() == it);
        assert(Seq::<char>::empty() =~= m.origin);
        assert(sp_item(tag, s, i) == Some::<(ItemModel, int)>((m, i + e.len())));
    }
}

/// All the models of a sequence are wire-sized.
pub open spec fn models_wf(ms: Seq<ItemModel>) -> bool {
    forall|k: int| 0 <= k < ms.len() ==> #[trigger] model_wf(ms[k])
}

/// Parsing the records of a non-empty list yields exactly those records.
proof fn lemma_items_rt(tag: Seq<char>, s: Seq<char>, i: int, ms: Seq<ItemModel>, idx: int)
    requires
        tag_wf(tag),
        models_wf(ms),
        0 <= idx < ms.len(),
        sp_match(s, i, encode_items_from(tag, ms, idx) + seq![']']),
    ensures
        sp_items(tag, s, i) == Some::<(Seq<ItemModel>, int)>(
            (ms.subrange(idx, ms.len() as int), i + encode_items_from(tag, ms, idx).len() + 1),
        ),
    decreases ms.len() - idx,
{
    let e = encode_item(tag, ms[idx]);
    assert(e.len() >= 1);
    if idx == ms.len() - 1 {
        assert(encode_items_from(tag, ms, idx) == e);
        lemma_match_concat(s, i, e, seq![']']);
        lemma_item_rt(tag, s, i, ms[idx]);
        let j = i + e.len();
        lemma_match_char(s, j, ']');
        lemma_match_char(s, j, ',');
        assert(s[j] == ']');
        assert(!sp_match(s, j, seq![',']));
        assert(seq![ms[idx]] =~= ms.subrange(idx, ms.len() as int));
    } else {
        let rest = encode_items_from(tag, ms, idx + 1);
        assert(encode_items_from(tag, ms, idx) == e + seq![','] + rest);
        assert((e + seq![','] + rest) + seq![']'] =~= e + (seq![','] + (rest + seq![']'])));
        lemma_match_concat(s, i, e, seq![','] + (rest + seq![']']));
        lemma_item_rt(tag, s, i, ms[idx]);
        let j = i + e.len();
        lemma_match_concat(s, j, seq![','], rest + seq![']']);
        lemma_match_char(s, j, ',');
        lemma_items_rt(tag, s, j + 1, ms, idx + 1);
        assert(seq![ms[idx]] + ms.subrange(idx + 1, ms.len() as int) =~= ms.subrange(
            idx,
            ms.len() as int,
        ));
    }
}

/// Decoding an encoded snapshot yields the records that were encoded.
///
/// The decoder accepts exactly the canonical spelling the encoder
/// produces, so for any well-formed tag and any records whose quantities
/// are counter-sized, the round trip through the wire is the identity.
pub proof fn lemma_decode_encode(tag: Seq<char>, ms: Seq<ItemModel>)
    requires
        tag_wf(tag),
        models_wf(ms),
    ensures
        sp_decode(tag, encode_list(tag, ms)) == Some(ms),
{
    let s = encode_list(tag, ms);
    let body = encode_items_from(tag, ms, 0);
    assert(sp_match(s, 0, s)) by {
        assert(s.subrange(0, s.len() as int) =~= s);
    }
    assert(s =~= seq!['['] + (body + seq![']']));
    lemma_match_concat(s, 0, seq!['['], body + seq![']']);
    lemma_match_char(s, 0, '[');
    if ms.len() == 0 {
        assert(body == Seq::<char>::empty());
        lemma_match_char(s, 1, ']');
        assert(s[1] == ']') by {
            assert((body + seq![']'])[0] == ']');
            assert(s.subrange(1, 1 + (body + seq![']']).len() as int)[0] == (body + seq![']'])[0]);
        }
        assert(sp_list(tag, s, 0) == Some::<(Seq<ItemModel>, int)>((Seq::empty(), 2)));
        assert(s.len() == 2);
        assert(Seq::<ItemModel>::empty() =~= ms);
    } else {
        lemma_items_rt(tag, s, 1, ms, 0);
        assert(ms.subrange(0, ms.len() as int) =~= ms);
        // A record opens with a brace, so the empty-list branch fails.
        let e = encode_item(tag, ms[0]);
        assert(body == (if ms.len() == 1 {
            e
        } else {
            e + seq![','] + encode_items_from(tag, ms, 1)
        }));
        assert(body[0] == '{') by {
            assert(e[0] == '{');
        }
        assert(s[1] == '{') by {
            assert(s.subrange(1, 1 + (body + seq![']']).len() as int)[0] == (body + seq![']'])[0]);
        }
        lemma_match_char(s, 1, ']');
        assert(!sp_match(s, 1, seq![']']));
        assert(1 + body.len() + 1 == s.len());
    }
}

proof fn lemma_sp_digits_nonneg(s: Seq<char>, i: int, acc: int, cnt: int)
    requires
        acc >= 0,
    ensures
        match sp_digits(s, i, acc, cnt) {
            None => true,
            Some((m, j)) => m >= 0,
        },
    decreases s.len() - i,
{
    if 0 <= i && i < s.len() && is_digit(s[i]) && cnt < 10 {
        lemma_sp_digits_nonneg(s, i + 1, acc * 10 + digit_val(s[i]), cnt + 1);
    }
}

/// Whatever a counter text holds, its value is counter-sized.
pub proof fn lemma_str_int_range(s: Seq<char>)
    ensures
        i32::MIN as int <= str_int(s) <= i32::MAX as int,
{
    if 0 <= 0 && 0 < s.len() && s[0] == '-' {
        lemma_sp_digits_nonneg(s, 1, 0, 0);
    } else {
        lemma_sp_digits_nonneg(s, 0, 0, 0);
    }
}

/// A counter value written as text reads back as itself.
pub proof fn lemma_str_int_encode(q: int)
    requires
        i32::MIN as int <= q <= i32::MAX as int,
    ensures
        str_int(encode_int(q)) == q,
{
    let s = encode_int(q);
    assert(sp_match(s, 0, s)) by {
        assert(s.subrange(0, s.len() as int) =~= s);
    }
    lemma_int_rt(s, 0, q);
}

/// Records that carry no origin tag.
pub open spec fn origins_empty(ms: Seq<ItemModel>) -> bool {
    forall|k: int| 0 <= k < ms.len() ==> #[trigger] ms[k].origin.len() == 0
}

proof fn lemma_encode_tag_unused(t1: Seq<char>, t2: Seq<char>, ms: Seq<ItemModel>, i: int)
    requires
        origins_empty(ms),
    ensures
        encode_items_from(t1, ms, i) == encode_items_from(t2, ms, i),
    decreases ms.len() - i,
{
    if 0 <= i && i < ms.len() {
        assert(ms[i].origin.len() == 0);
        assert(encode_item(t1, ms[i]) == encode_item(t2, ms[i]));
        lemma_encode_tag_unused(t1, t2, ms, i + 1);
    }
}

/// The leaf-to-parent wire round trip: a snapshot published without
/// origin tags, as a leaf answers a rundown, decodes at the parent under
/// the parent's own origin field name to exactly the published records.
pub proof fn lemma_rundown_round_trip(tag: Seq<char>, ms: Seq<ItemModel>)
    requires
        tag_wf(tag),
        models_wf(ms),
        origins_empty(ms),
    ensures
        sp_decode(tag, encode_list(""@, ms)) == Some(ms),
{
    lemma_encode_tag_unused(""@, tag, ms, 0);
    assert(encode_list(""@, ms) == encode_list(tag, ms));
    lemma_decode_encode(tag, ms);
}

/// Decoding an encoded single record yields that record.
pub proof fn lemma_decode_item_encode(tag: Seq<char>, m: ItemModel)
    requires
        tag_wf(tag),
        model_wf(m),
    ensures
        sp_decode_item(tag, encode_item(tag, m)) == Some(m),
{
    let s = encode_item(tag, m);
    assert(sp_match(s, 0, s)) by {
        assert(s.subrange(0, s.len() as int) =~= s);
    }
    lemma_item_rt(tag, s, 0, m);
}

/// Parses a single-record text, as request bodies carry.
pub fn decode_item(tag: &str, s: &str) -> (r: Option<InventoryItem>)
    ensures
        match r {
            None => sp_decode_item(tag@, s@) is None,
            Some(it) => sp_decode_item(tag@, s@) == Some(it@),
        },
{
    let cs = str_to_chars(s);
    match ex_item(tag, &cs, 0) {
        None => None,
        Some((it, j)) => {
            if j == cs.len() {
                Some(it)
            } else {
                None
            }
        },
    }
}

} // verus!

