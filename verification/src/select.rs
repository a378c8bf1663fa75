//! The decisions of the two selection pipelines: which titles go to the
//! selector, how a choice maps back to an item, which field a prompt
//! asks for, and how the launcher's answer is read.

use vstd::prelude::*;

use crate::Item;
use crate::ItemModel;
use crate::json::is_digit;
use crate::json::view_bytes_list;

verus! {

/// The field of an item that a prompt asks for.
#[derive(Debug, Clone, Copy, PartialEq, Eq, Structural)]
pub enum FieldKind {
    Username,
    Password,
}

/// What the external launcher's answer means: a cancellation (to exit
/// silently), an unusable answer (to exit with a diagnostic), or the
/// chosen zero-based index.
#[derive(Debug, Clone, Copy, PartialEq, Eq, Structural)]
pub enum Choice {
    Cancelled,
    Invalid,
    Chosen(usize),
}

/// The titles of a sequence of items, in order.
pub open spec fn titles_of(items: Seq<Item>) -> Seq<Seq<u8>> {
    items.map_values(|it: Item| it@.title)
}

/// Length (1, 2 or 3) of the UTF-8 encoding of a whitespace character
/// standing at `i`, or 0.  The characters are those with the Unicode
/// `White_Space` property, the set the host language's string trim uses:
/// tab through carriage return, space, next line, no-break space, ogham
/// space mark, the en-quad..hair-space range, line and paragraph
/// separators, narrow no-break space, medium mathematical space, and
/// ideographic space.
pub open spec fn ws_prefix_len(s: Seq<u8>, i: int) -> int {
    if !(0 <= i < s.len()) {
        0
    } else {
        let b = s[i];
        if b == 0x20 || (9 <= b && b <= 13) {
            1
        } else if i + 2 <= s.len() && b == 0xC2 && (s[i + 1] == 0x85 || s[i + 1] == 0xA0) {
            2
        } else if i + 3 <= s.len() && b == 0xE1 && s[i + 1] == 0x9A && s[i + 2] == 0x80 {
            3
        } else if i + 3 <= s.len() && b == 0xE2 && s[i + 1] == 0x80 && (0x80 <= s[i + 2] <= 0x8A
            || s[i + 2] == 0xA8 || s[i + 2] == 0xA9 || s[i + 2] == 0xAF) {
            3
        } else if i + 3 <= s.len() && b == 0xE2 && s[i + 1] == 0x81 && s[i + 2] == 0x9F {
            3
        } else if i + 3 <= s.len() && b == 0xE3 && s[i + 1] == 0x80 && s[i + 2] == 0x80 {
            3
        } else {
            0
        }
    }
}

/// Length of the whitespace encoding that ends just before `j`, or 0.
/// The same character set as [`ws_prefix_len`], matched from the end.
pub open spec fn ws_suffix_len(s: Seq<u8>, j: int) -> int {
    if !(0 < j <= s.len()) {
        0
    } else {
        let b = s[j - 1];
        if b == 0x20 || (9 <= b && b <= 13) {
            1
        } else if j >= 2 && s[j - 2] == 0xC2 && (b == 0x85 || b == 0xA0) {
            2
        } else if j >= 3 && s[j - 3] == 0xE1 && s[j - 2] == 0x9A && b == 0x80 {
            3
        } else if j >= 3 && s[j - 3] == 0xE2 && s[j - 2] == 0x80 && (0x80 <= b <= 0x8A || b == 0xA8
            || b == 0xA9 || b == 0xAF) {
            3
        } else if j >= 3 && s[j - 3] == 0xE2 && s[j - 2] == 0x81 && b == 0x9F {
            3
        } else if j >= 3 && s[j - 3] == 0xE3 && s[j - 2] == 0x80 && b == 0x80 {
            3
        } else {
            0
        }
    }
}

/// Index after the leading whitespace of `s[i..]`.
pub open spec fn lead_ws_end(s: Seq<u8>, i: int) -> int
    decreases s.len() - i,
{
    let w = ws_prefix_len(s, i);
    if w > 0 {
        lead_ws_end(s, i + w)
    } else {
        i
    }
}

/// Index before the trailing whitespace of `s[..j]`.
pub open spec fn trail_ws_start(s: Seq<u8>, j: int) -> int
    decreases j,
{
    let w = ws_suffix_len(s, j);
    if w > 0 {
        trail_ws_start(s, j - w)
    } else {
        j
    }
}

/// `s` without leading and trailing whitespace; the content between is
/// kept byte for byte.
pub open spec fn trim_of(s: Seq<u8>) -> Seq<u8> {
    let a = lead_ws_end(s, 0);
    let b = trail_ws_start(s, s.len() as int);
    if a <= b {
        s.subrange(a, b)
    } else {
        Seq::empty()
    }
}

/// `t` is one or more decimal digits.
pub open spec fn all_digits(t: Seq<u8>) -> bool {
    t.len() >= 1 && forall|m: int| 0 <= m < t.len() ==> is_digit(#[trigger] t[m])
}

/// The number the digits `t` write in decimal.
pub open spec fn dec_val(t: Seq<u8>) -> int
    decreases t.len(),
{
    if t.len() == 0 {
        0
    } else {
        dec_val(t.drop_last()) * 10 + (t.last() - 48)
    }
}

/// The ASCII lowering of one byte.
pub open spec fn lower(b: u8) -> u8 {
    if 65 <= b <= 90 {
        (b + 32) as u8
    } else {
        b
    }
}

/// The word `username` stands at `j` of `s`, compared without case.
pub open spec fn username_at(s: Seq<u8>, j: int) -> bool {
    &&& 0 <= j
    &&& j + 8 <= s.len()
    &&& lower(s[j]) == 117
    &&& lower(s[j + 1]) == 115
    &&& lower(s[j + 2]) == 101
    &&& lower(s[j + 3]) == 114
    &&& lower(s[j + 4]) == 110
    &&& lower(s[j + 5]) == 97
    &&& lower(s[j + 6]) == 109
    &&& lower(s[j + 7]) == 101
}

/// `s` contains the word `username`, compared without case.
pub open spec fn has_username(s: Seq<u8>) -> bool {
    exists|j: int| username_at(s, j)
}

fn copy_bytes(v: &Vec<u8>) -> (r: Vec<u8>)
    ensures
        r@ == v@,
{
    let mut out: Vec<u8> = Vec::new();
    let mut j: usize = 0;
    while j < v.len()
        invariant
            j <= v@.len(),
            out@ =~= v@.subrange(0, j as int),
        decreases v@.len() - j,
    {
        out.push(v[j]);
        proof {
            assert(v@.subrange(0, j + 1 as int) =~= v@.subrange(0, j as int).push(v@[j as int]));
        }
        j = j + 1;
    }
    proof {
        assert(v@.subrange(0, v@.len() as int) =~= v@);
    }
    out
}

fn bytes_eq(a: &Vec<u8>, b: &Vec<u8>) -> (r: bool)
    ensures
        r <==> a@ == b@,
{
    if a.len() != b.len() {
        return false;
    }
    let mut j: usize = 0;
    while j < a.len()
        invariant
            a@.len() == b@.len(),
            j <= a@.len(),
            forall|m: int| 0 <= m < j ==> a@[m] == b@[m],
        decreases a@.len() - j,
    {
        if a[j] != b[j] {
            return false;
        }
        j = j + 1;
    }
    proof {
        assert(a@ =~= b@);
    }
    true
}

/// The titles to hand to the selector, or `None` when there is no item,
/// in which case the run aborts before any selector is shown.
pub fn titles_for_selection(items: &Vec<Item>) -> (r: Option<Vec<Vec<u8>>>)
    ensures
        (r is Some) <==> items@.len() > 0,
        r matches Some(ts) ==> view_bytes_list(ts@) == titles_of(items@),
{
    if items.len() == 0 {
        return None;
    }
    let mut out: Vec<Vec<u8>> = Vec::new();
    let mut j: usize = 0;
    while j < items.len()
        invariant
            j <= items@.len(),
            out@.len() == j as int,
            forall|m: int| 0 <= m < j ==> (#[trigger] out@[m])@ == items@[m]@.title,
        decreases items@.len() - j,
    {
        let c = copy_bytes(&items[j].title);
        out.push(c);
        j = j + 1;
    }
    proof {
        assert forall|m: int| 0 <= m < items@.len() implies view_bytes_list(out@)[m] == titles_of(
            items@,
        )[m] by {
            assert(view_bytes_list(out@)[m] == out@[m]@);
            assert(titles_of(items@)[m] == items@[m]@.title);
        }
        assert(view_bytes_list(out@) =~= titles_of(items@));
    }
    Some(out)
}

/// The first item whose title is exactly `title`, if any: the mapping of
/// a selector's answer back to an item, ties broken by first occurrence.
pub fn find_first_by_title(items: &Vec<Item>, title: &Vec<u8>) -> (r: Option<usize>)
    ensures
        r matches Some(k) ==> k < items@.len() && items@[k as int]@.title == title@,
        r matches Some(k) ==> forall|m: int| 0 <= m < k ==> items@[m]@.title != title@,
        r is None ==> forall|m: int| 0 <= m < items@.len() ==> items@[m]@.title != title@,
{
    let mut j: usize = 0;
    while j < items.len()
        invariant
            j <= items@.len(),
            forall|m: int| 0 <= m < j ==> items@[m]@.title != title@,
        decreases items@.len() - j,
    {
        if bytes_eq(&items[j].title, title) {
            return Some(j);
        }
        j = j + 1;
    }
    None
}

/// The field labels to hand to the selector, or `None` when the item has
/// no field, in which case the run aborts before any selector is shown.
pub fn labels_for_selection(labels: Vec<Vec<u8>>) -> (r: Option<Vec<Vec<u8>>>)
    ensures
        (r is Some) <==> labels@.len() > 0,
        r matches Some(ls) ==> ls@ == labels@,
{
    if labels.len() == 0 {
        None
    } else {
        Some(labels)
    }
}

/// The identifier of the item at position `k` of the listing, if `k` is
/// in range.
pub fn id_at(items: &Vec<Item>, k: usize) -> (r: Option<Vec<u8>>)
    ensures
        (r is Some) <==> k < items@.len(),
        r matches Some(v) ==> v@ == items@[k as int]@.id,
{
    if k < items.len() {
        Some(copy_bytes(&items[k].id))
    } else {
        None
    }
}

fn ws_prefix_at(s: &Vec<u8>, i: usize) -> (r: usize)
    requires
        i <= s@.len(),
    ensures
        r == ws_prefix_len(s@, i as int),
        r != 0 ==> i + r <= s@.len(),
{
    if i >= s.len() {
        return 0;
    }
    let b = s[i];
    if b == 0x20 || (9 <= b && b <= 13) {
        1
    } else if s.len() - i >= 2 && b == 0xC2 && (s[i + 1] == 0x85 || s[i + 1] == 0xA0) {
        2
    } else if s.len() - i >= 3 && b == 0xE1 && s[i + 1] == 0x9A && s[i + 2] == 0x80 {
        3
    } else if s.len() - i >= 3 && b == 0xE2 && s[i + 1] == 0x80 && ((0x80 <= s[i + 2] && s[i + 2]
        <= 0x8A) || s[i + 2] == 0xA8 || s[i + 2] == 0xA9 || s[i + 2] == 0xAF) {
        3
    } else if s.len() - i >= 3 && b == 0xE2 && s[i + 1] == 0x81 && s[i + 2] == 0x9F {
        3
    } else if s.len() - i >= 3 && b == 0xE3 && s[i + 1] == 0x80 && s[i + 2] == 0x80 {
        3
    } else {
        0
    }
}

fn ws_suffix_at(s: &Vec<u8>, j: usize) -> (r: usize)
    requires
        j <= s@.len(),
    ensures
        r == ws_suffix_len(s@, j as int),
        r <= j,
{
    if j == 0 {
        return 0;
    }
    let b = s[j - 1];
    if b == 0x20 || (9 <= b && b <= 13) {
        1
    } else if j >= 2 && s[j - 2] == 0xC2 && (b == 0x85 || b == 0xA0) {
        2
    } else if j >= 3 && s[j - 3] == 0xE1 && s[j - 2] == 0x9A && b == 0x80 {
        3
    } else if j >= 3 && s[j - 3] == 0xE2 && s[j - 2] == 0x80 && ((0x80 <= b && b <= 0x8A) || b
        == 0xA8 || b == 0xA9 || b == 0xAF) {
        3
    } else if j >= 3 && s[j - 3] == 0xE2 && s[j - 2] == 0x81 && b == 0x9F {
        3
    } else if j >= 3 && s[j - 3] == 0xE3 && s[j - 2] == 0x80 && b == 0x80 {
        3
    } else {
        0
    }
}

/// Remove leading and trailing whitespace.
pub fn trim_bytes(s: &Vec<u8>) -> (r: Vec<u8>)
    ensures
        r@ == trim_of(s@),
{
    let n: usize = s.len();
    let mut a: usize = 0;
    let mut w: usize = ws_prefix_at(s, a);
    while w != 0
        invariant
            s@.len() == n as int,
            a <= s@.len(),
            w == ws_prefix_len(s@, a as int),
            w != 0 ==> a + w <= s@.len(),
            lead_ws_end(s@, 0) == lead_ws_end(s@, a as int),
        decreases s@.len() - a,
    {
        a = a + w;
        w = ws_prefix_at(s, a);
    }
    let mut b: usize = s.len();
    let mut w2: usize = ws_suffix_at(s, b);
    while w2 != 0
        invariant
            b <= s@.len(),
            w2 == ws_suffix_len(s@, b as int),
            w2 <= b,
            trail_ws_start(s@, s@.len() as int) == trail_ws_start(s@, b as int),
        decreases b,
    {
        b = b - w2;
        w2 = ws_suffix_at(s, b);
    }
    if a >= b {
        let out: Vec<u8> = Vec::new();
        return out;
    }
    let mut out: Vec<u8> = Vec::new();
    let mut j: usize = a;
    while j < b
        invariant
            a <= j <= b <= s@.len(),
            a == lead_ws_end(s@, 0),
            b == trail_ws_start(s@, s@.len() as int),
            out@ =~= s@.subrange(a as int, j as int),
        decreases b - j,
    {
        out.push(s[j]);
        proof {
            assert(s@.subrange(a as int, j + 1 as int) =~= s@.subrange(a as int, j as int).push(
                s@[j as int],
            ));
        }
        j = j + 1;
    }
    out
}

const CAP: u128 = 0x10000000000000000;

/// Read the launcher's answer.  A non-zero exit or an empty output once
/// trimmed is a cancellation (the run exits silently); an output that is
/// not a decimal number below `n` is unusable (the run exits with a
/// diagnostic); otherwise it is the chosen zero-based index.
pub fn parse_launcher_choice(exit_ok: bool, out: &Vec<u8>, n: usize) -> (r: Choice)
    ensures
        !exit_ok ==> r == Choice::Cancelled,
        exit_ok && trim_of(out@).len() == 0 ==> r == Choice::Cancelled,
        exit_ok && trim_of(out@).len() > 0 && !all_digits(trim_of(out@)) ==> r == Choice::Invalid,
        exit_ok && all_digits(trim_of(out@)) && dec_val(trim_of(out@)) < n ==> (r matches Choice::Chosen(k) && k == dec_val(trim_of(out@))),
        exit_ok && all_digits(trim_of(out@)) && dec_val(trim_of(out@)) >= n ==> r == Choice::Invalid,
{
    if !exit_ok {
        return Choice::Cancelled;
    }
    let t = trim_bytes(out);
    if t.len() == 0 {
        return Choice::Cancelled;
    }
    let mut j: usize = 0;
    while j < t.len()
        invariant
            exit_ok,
            t@ == trim_of(out@),
            t@.len() > 0,
            j <= t@.len(),
            forall|m: int| 0 <= m < j ==> is_digit(#[trigger] t@[m]),
        decreases t@.len() - j,
    {
        let b = t[j];
        if !(48 <= b && b <= 57) {
            proof {
                assert(!is_digit(t@[j as int]));
            }
            return Choice::Invalid;
        }
        j = j + 1;
    }
    let mut acc: u128 = 0;
    let mut m: usize = 0;
    while m < t.len()
        invariant
            exit_ok,
            t@ == trim_of(out@),
            m <= t@.len(),
            all_digits(t@),
            acc <= CAP,
            dec_val(t@.subrange(0, m as int)) >= 0,
            dec_val(t@.subrange(0, m as int)) < CAP ==> acc == dec_val(t@.subrange(0, m as int)),
            dec_val(t@.subrange(0, m as int)) >= CAP ==> acc == CAP,
        decreases t@.len() - m,
    {
        let d: u128 = (t[m] - 48) as u128;
        proof {
            assert(t@.subrange(0, m + 1 as int).drop_last() =~= t@.subrange(0, m as int));
            assert(t@.subrange(0, m + 1 as int).last() == t@[m as int]);
        }
        acc = acc * 10 + d;
        if acc > CAP {
            acc = CAP;
        }
        m = m + 1;
    }
    proof {
        assert(t@.subrange(0, t@.len() as int) =~= t@);
    }
    if acc < (n as u128) {
        Choice::Chosen(acc as usize)
    } else {
        Choice::Invalid
    }
}

fn lower_byte(b: u8) -> (r: u8)
    ensures
        r == lower(b),
{
    if 65 <= b && b <= 90 {
        b + 32
    } else {
        b
    }
}

/// The field a prompt asks for: `username` when the prompt contains that
/// word in any case, `password` otherwise.
pub fn field_for_prompt(prompt: &Vec<u8>) -> (r: FieldKind)
    ensures
        r == (if has_username(prompt@) {
            FieldKind::Username
        } else {
            FieldKind::Password
        }),
{
    if prompt.len() < 8 {
        return FieldKind::Password;
    }
    let mut j: usize = 0;
    while j <= prompt.len() - 8
        invariant
            prompt@.len() >= 8,
            j <= prompt@.len() - 8 + 1,
            forall|m: int| 0 <= m < j ==> !username_at(prompt@, m),
        decreases prompt@.len() - j,
    {
        let hit = lower_byte(prompt[j]) == 117 && lower_byte(prompt[j + 1]) == 115 && lower_byte(
            prompt[j + 2],
        ) == 101 && lower_byte(prompt[j + 3]) == 114 && lower_byte(prompt[j + 4]) == 110
            && lower_byte(prompt[j + 5]) == 97 && lower_byte(prompt[j + 6]) == 109 && lower_byte(
            prompt[j + 7],
        ) == 101;
        if hit {
            proof {
                assert(username_at(prompt@, j as int));
            }
            return FieldKind::Username;
        }
        j = j + 1;
    }
    proof {
        assert forall|m: int| !username_at(prompt@, m) by {
            if 0 <= m && m + 8 <= prompt@.len() {
                assert(!username_at(prompt@, m));
            }
        }
    }
    FieldKind::Password
}


} // verus!
