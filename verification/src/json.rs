//! A verified parser for the JSON responses of the secrets-manager CLI.
//!
//! The grammar is defined by the `sp_*` specification functions over a byte
//! sequence; the executable functions mirror them exactly and are proved to
//! return the same results.  Recursion into nested values is bounded by a
//! fuel parameter; a document of `n` bytes can nest at most `n` values deep,
//! so the top-level entry points run with fuel `n`.

use vstd::prelude::*;

use crate::Item;
use crate::ItemModel;

verus! {

pub const QUOTE: u8 = 34;
pub const BACKSLASH: u8 = 92;
pub const LBRACKET: u8 = 91;
pub const RBRACKET: u8 = 93;
pub const LBRACE: u8 = 123;
pub const RBRACE: u8 = 125;
pub const COMMA: u8 = 44;
pub const COLON: u8 = 58;
pub const MINUS: u8 = 45;

/// The JSON whitespace bytes: space, tab, line feed, carriage return.
pub open spec fn is_ws(b: u8) -> bool {
    b == 32 || b == 9 || b == 10 || b == 13
}

/// Index of the first non-whitespace byte at or after `i` (or the end).
pub open spec fn sp_ws(s: Seq<u8>, i: int) -> int
    decreases s.len() - i,
{
    if 0 <= i < s.len() && is_ws(s[i]) {
        sp_ws(s, i + 1)
    } else {
        i
    }
}

/// A parsed JSON value.  String contents are the decoded bytes (escape
/// sequences resolved, `\u` escapes encoded as UTF-8); numbers keep their
/// lexeme; object members keep their order of appearance.
pub enum Json {
    Null,
    Bool(bool),
    Num(Seq<u8>),
    Str(Seq<u8>),
    Arr(Seq<Json>),
    Obj(Seq<(Seq<u8>, Json)>),
}

/// Value of one hexadecimal digit byte.
pub open spec fn hex_val(b: u8) -> Option<u32> {
    if 48 <= b <= 57 {
        Some((b - 48) as u32)
    } else if 97 <= b <= 102 {
        Some((b - 97 + 10) as u32)
    } else if 65 <= b <= 70 {
        Some((b - 65 + 10) as u32)
    } else {
        None
    }
}

/// Value of the four hexadecimal digits starting at `i`.
pub open spec fn sp_hex4(s: Seq<u8>, i: int) -> Option<u32> {
    if 0 <= i && i + 4 <= s.len() {
        match (hex_val(s[i]), hex_val(s[i + 1]), hex_val(s[i + 2]), hex_val(s[i + 3])) {
            (Some(a), Some(b), Some(c), Some(d)) => Some((a * 4096 + b * 256 + c * 16 + d) as u32),
            _ => None,
        }
    } else {
        None
    }
}

/// UTF-8 encoding of the scalar value `cp`.
pub open spec fn utf8_of(cp: u32) -> Seq<u8> {
    if cp < 0x80 {
        seq![cp as u8]
    } else if cp < 0x800 {
        seq![(0xC0 + cp / 0x40) as u8, (0x80 + cp % 0x40) as u8]
    } else if cp < 0x10000 {
        seq![
            (0xE0 + cp / 0x1000) as u8,
            (0x80 + (cp / 0x40) % 0x40) as u8,
            (0x80 + cp % 0x40) as u8,
        ]
    } else {
        seq![
            (0xF0 + cp / 0x40000) as u8,
            (0x80 + (cp / 0x1000) % 0x40) as u8,
            (0x80 + (cp / 0x40) % 0x40) as u8,
            (0x80 + cp % 0x40) as u8,
        ]
    }
}

/// One escape sequence, entered just after the backslash: the bytes it
/// denotes and the index after it.  A high surrogate must be followed by a
/// low one; the pair encodes a single code point.
pub open spec fn sp_escape(s: Seq<u8>, i: int) -> Option<(Seq<u8>, int)> {
    if !(0 <= i < s.len()) {
        None
    } else {
        let b = s[i];
        if b == QUOTE || b == BACKSLASH || b == 47 {
            Some((seq![b], i + 1))
        } else if b == 98 {
            Some((seq![8u8], i + 1))
        } else if b == 102 {
            Some((seq![12u8], i + 1))
        } else if b == 110 {
            Some((seq![10u8], i + 1))
        } else if b == 114 {
            Some((seq![13u8], i + 1))
        } else if b == 116 {
            Some((seq![9u8], i + 1))
        } else if b == 117 {
            match sp_hex4(s, i + 1) {
                None => None,
                Some(hi) => {
                    if 0xD800 <= hi < 0xDC00 {
                        if i + 11 <= s.len() && s[i + 5] == BACKSLASH && s[i + 6] == 117 {
                            match sp_hex4(s, i + 7) {
                                None => None,
                                Some(lo) => {
                                    if 0xDC00 <= lo < 0xE000 {
                                        Some(
                                            (
                                                utf8_of(
                                                    (0x10000 + (hi - 0xD800) * 0x400 + (lo
                                                        - 0xDC00)) as u32,
                                                ),
                                                i + 11,
                                            ),
                                        )
                                    } else {
                                        None
                                    }
                                },
                            }
                        } else {
                            None
                        }
                    } else if 0xDC00 <= hi < 0xE000 {
                        None
                    } else {
                        Some((utf8_of(hi), i + 5))
                    }
                },
            }
        } else {
            None
        }
    }
}

/// Body of a string, entered just after the opening quote: the decoded
/// content and the index after the closing quote.
pub open spec fn sp_str_body(s: Seq<u8>, i: int) -> Option<(Seq<u8>, int)>
    decreases s.len() - i,
{
    if !(0 <= i < s.len()) {
        None
    } else {
        let b = s[i];
        if b == QUOTE {
            Some((Seq::empty(), i + 1))
        } else if b == BACKSLASH {
            match sp_escape(s, i + 1) {
                None => None,
                Some((eb, j)) => if i < j {
                    match sp_str_body(s, j) {
                        None => None,
                        Some((rest, e)) => Some((eb + rest, e)),
                    }
                } else {
                    None
                },
            }
        } else if b < 0x20 {
            None
        } else {
            let w = utf8_seq_len(s, i);
            if w == 0 {
                None
            } else {
                match sp_str_body(s, i + w) {
                    None => None,
                    Some((rest, e)) => Some((s.subrange(i, i + w) + rest, e)),
                }
            }
        }
    }
}

pub open spec fn is_cont(b: u8) -> bool {
    0x80 <= b <= 0xBF
}

/// Length of the well-formed UTF-8 scalar encoding starting at `i`, or 0
/// when the bytes there are not one: overlong forms, surrogates, values
/// above U+10FFFF, and truncated sequences are all rejected.
pub open spec fn utf8_seq_len(s: Seq<u8>, i: int) -> int {
    if !(0 <= i < s.len()) {
        0
    } else {
        let b = s[i];
        if b < 0x80 {
            1
        } else if 0xC2 <= b <= 0xDF {
            if i + 2 <= s.len() && is_cont(s[i + 1]) {
                2
            } else {
                0
            }
        } else if b == 0xE0 {
            if i + 3 <= s.len() && 0xA0 <= s[i + 1] <= 0xBF && is_cont(s[i + 2]) {
                3
            } else {
                0
            }
        } else if 0xE1 <= b <= 0xEC || b == 0xEE || b == 0xEF {
            if i + 3 <= s.len() && is_cont(s[i + 1]) && is_cont(s[i + 2]) {
                3
            } else {
                0
            }
        } else if b == 0xED {
            if i + 3 <= s.len() && 0x80 <= s[i + 1] <= 0x9F && is_cont(s[i + 2]) {
                3
            } else {
                0
            }
        } else if b == 0xF0 {
            if i + 4 <= s.len() && 0x90 <= s[i + 1] <= 0xBF && is_cont(s[i + 2]) && is_cont(
                s[i + 3],
            ) {
                4
            } else {
                0
            }
        } else if 0xF1 <= b <= 0xF3 {
            if i + 4 <= s.len() && is_cont(s[i + 1]) && is_cont(s[i + 2]) && is_cont(s[i + 3]) {
                4
            } else {
                0
            }
        } else if b == 0xF4 {
            if i + 4 <= s.len() && 0x80 <= s[i + 1] <= 0x8F && is_cont(s[i + 2]) && is_cont(
                s[i + 3],
            ) {
                4
            } else {
                0
            }
        } else {
            0
        }
    }
}

pub open spec fn is_digit(b: u8) -> bool {
    48 <= b <= 57
}

/// Index of the first non-digit byte at or after `i`.
pub open spec fn sp_digits(s: Seq<u8>, i: int) -> int
    decreases s.len() - i,
{
    if 0 <= i < s.len() && is_digit(s[i]) {
        sp_digits(s, i + 1)
    } else {
        i
    }
}

/// Optional fraction part starting at `k`: the index after it, or `None`
/// if a decimal point is not followed by a digit.
pub open spec fn sp_frac(s: Seq<u8>, k: int) -> Option<int> {
    if 0 <= k < s.len() && s[k] == 46 {
        let d = sp_digits(s, k + 1);
        if d > k + 1 {
            Some(d)
        } else {
            None
        }
    } else {
        Some(k)
    }
}

/// Optional exponent part starting at `k`.
pub open spec fn sp_exp(s: Seq<u8>, k: int) -> Option<int> {
    if 0 <= k < s.len() && (s[k] == 101 || s[k] == 69) {
        let m = if k + 1 < s.len() && (s[k + 1] == 43 || s[k + 1] == MINUS) {
            k + 2
        } else {
            k + 1
        };
        let d = sp_digits(s, m);
        if d > m {
            Some(d)
        } else {
            None
        }
    } else {
        Some(k)
    }
}

/// A number starting at `i`: the index after it.
pub open spec fn sp_number(s: Seq<u8>, i: int) -> Option<int> {
    let j = if 0 <= i < s.len() && s[i] == MINUS {
        i + 1
    } else {
        i
    };
    if !(0 <= j < s.len() && is_digit(s[j])) {
        None
    } else {
        let k = if s[j] == 48 {
            j + 1
        } else {
            sp_digits(s, j)
        };
        match sp_frac(s, k) {
            None => None,
            Some(k2) => sp_exp(s, k2),
        }
    }
}

/// True if the four bytes `b0 b1 b2 b3` stand at `i`.
pub open spec fn sp_lit4(s: Seq<u8>, i: int, b0: u8, b1: u8, b2: u8, b3: u8) -> bool {
    &&& 0 <= i
    &&& i + 4 <= s.len()
    &&& s[i] == b0
    &&& s[i + 1] == b1
    &&& s[i + 2] == b2
    &&& s[i + 3] == b3
}

/// A value starting at `i`: the parsed value and the index after it.
///
/// `fuel` bounds recursion into nested arrays and objects.  Every nesting
/// level consumes at least one byte before recursing, so fuel `s.len()`
/// suffices for any document; the `i < i2` guards on the recursive calls
/// below likewise only rule out positions the grammar cannot produce.
pub open spec fn sp_value(s: Seq<u8>, i: int, fuel: nat) -> Option<(Json, int)>
    decreases fuel, s.len() - i, 0int,
{
    if fuel == 0 || !(0 <= i < s.len()) {
        None
    } else {
        let b = s[i];
        if b == 110 {  // 'n'
            if sp_lit4(s, i, 110, 117, 108, 108) {
                Some((Json::Null, i + 4))
            } else {
                None
            }
        } else if b == 116 {  // 't'
            if sp_lit4(s, i, 116, 114, 117, 101) {
                Some((Json::Bool(true), i + 4))
            } else {
                None
            }
        } else if b == 102 {  // 'f'
            if sp_lit4(s, i + 1, 97, 108, 115, 101) {
                Some((Json::Bool(false), i + 5))
            } else {
                None
            }
        } else if b == QUOTE {
            match sp_str_body(s, i + 1) {
                None => None,
                Some((c, e)) => Some((Json::Str(c), e)),
            }
        } else if b == MINUS || is_digit(b) {
            match sp_number(s, i) {
                None => None,
                Some(e) => Some((Json::Num(s.subrange(i, e)), e)),
            }
        } else if b == LBRACKET {
            let j = sp_ws(s, i + 1);
            if j < s.len() && s[j] == RBRACKET {
                Some((Json::Arr(Seq::empty()), j + 1))
            } else if j < s.len() {
                match sp_elems(s, j, (fuel - 1) as nat) {
                    None => None,
                    Some((vs, e)) => Some((Json::Arr(vs), e)),
                }
            } else {
                None
            }
        } else if b == LBRACE {
            let j = sp_ws(s, i + 1);
            if j < s.len() && s[j] == RBRACE {
                Some((Json::Obj(Seq::empty()), j + 1))
            } else if j < s.len() {
                match sp_members(s, j, (fuel - 1) as nat) {
                    None => None,
                    Some((ms, e)) => Some((Json::Obj(ms), e)),
                }
            } else {
                None
            }
        } else {
            None
        }
    }
}

/// The elements of an array, entered at the first element: the values and
/// the index after the closing bracket.
pub open spec fn sp_elems(s: Seq<u8>, i: int, fuel: nat) -> Option<(Seq<Json>, int)>
    decreases fuel, s.len() - i, 1int,
{
    match sp_value(s, i, fuel) {
        None => None,
        Some((v, e)) => {
            let k = sp_ws(s, e);
            if k < s.len() && s[k] == RBRACKET {
                Some((seq![v], k + 1))
            } else if k < s.len() && s[k] == COMMA {
                let i2 = sp_ws(s, k + 1);
                if i < i2 < s.len() {
                    match sp_elems(s, i2, fuel) {
                        None => None,
                        Some((vs, e2)) => Some((seq![v] + vs, e2)),
                    }
                } else {
                    None
                }
            } else {
                None
            }
        },
    }
}

/// The members of an object, entered at the first key's quote: the
/// key/value pairs in order and the index after the closing brace.
pub open spec fn sp_members(s: Seq<u8>, i: int, fuel: nat) -> Option<(Seq<(Seq<u8>, Json)>, int)>
    decreases fuel, s.len() - i, 1int,
{
    if !(0 <= i < s.len() && s[i] == QUOTE) {
        None
    } else {
        match sp_str_body(s, i + 1) {
            None => None,
            Some((key, ke)) => {
                let c = sp_ws(s, ke);
                if !(c < s.len() && s[c] == COLON) {
                    None
                } else {
                    let vi = sp_ws(s, c + 1);
                    if i < vi < s.len() {
                        match sp_value(s, vi, fuel) {
                            None => None,
                            Some((v, e)) => {
                                let k = sp_ws(s, e);
                                if k < s.len() && s[k] == RBRACE {
                                    Some((seq![(key, v)], k + 1))
                                } else if k < s.len() && s[k] == COMMA {
                                    let i2 = sp_ws(s, k + 1);
                                    if i < i2 < s.len() {
                                        match sp_members(s, i2, fuel) {
                                            None => None,
                                            Some((ms, e2)) => Some((seq![(key, v)] + ms, e2)),
                                        }
                                    } else {
                                        None
                                    }
                                } else {
                                    None
                                }
                            },
                        }
                    } else {
                        None
                    }
                }
            },
        }
    }
}

/// A whole document: one value surrounded by whitespace.
pub open spec fn json_doc(s: Seq<u8>) -> Option<Json> {
    let i = sp_ws(s, 0);
    match sp_value(s, i, s.len() as nat) {
        None => None,
        Some((v, e)) => if sp_ws(s, e) == s.len() {
            Some(v)
        } else {
            None
        },
    }
}

// --- Extraction of items and field labels from parsed documents ---
pub open spec fn id_key() -> Seq<u8> {
    seq![105u8, 100u8]  // "id"
}

pub open spec fn title_key() -> Seq<u8> {
    seq![116u8, 105u8, 116u8, 108u8, 101u8]  // "title"
}

pub open spec fn fields_key() -> Seq<u8> {
    seq![102u8, 105u8, 101u8, 108u8, 100u8, 115u8]  // "fields"
}

pub open spec fn label_key() -> Seq<u8> {
    seq![108u8, 97u8, 98u8, 101u8, 108u8]  // "label"
}

/// The value of the first member named `k`, if any.
pub open spec fn obj_lookup(ms: Seq<(Seq<u8>, Json)>, k: Seq<u8>) -> Option<Json>
    decreases ms.len(),
{
    if ms.len() == 0 {
        None
    } else if ms[0].0 == k {
        Some(ms[0].1)
    } else {
        obj_lookup(ms.drop_first(), k)
    }
}

/// The content of the member named `k`, if its first occurrence is a
/// string; `None` if it is absent or not a string.
pub open spec fn got_str(ms: Seq<(Seq<u8>, Json)>, k: Seq<u8>) -> Option<Seq<u8>> {
    match obj_lookup(ms, k) {
        Some(v) => match v {
            Json::Str(c) => Some(c),
            _ => None,
        },
        None => None,
    }
}

/// An item read from one listed value: an object with string members
/// `id` and `title`.
pub open spec fn item_of(v: Json) -> Option<ItemModel> {
    match v {
        Json::Obj(ms) => match (got_str(ms, id_key()), got_str(ms, title_key())) {
            (Some(a), Some(b)) => Some(ItemModel { id: a, title: b }),
            _ => None,
        },
        _ => None,
    }
}

/// The items of a listed sequence of values, in order; `None` if any
/// value is not an item.
pub open spec fn items_of(vs: Seq<Json>) -> Option<Seq<ItemModel>>
    decreases vs.len(),
{
    if vs.len() == 0 {
        Some(Seq::empty())
    } else {
        match item_of(vs[0]) {
            None => None,
            Some(it) => match items_of(vs.drop_first()) {
                None => None,
                Some(rest) => Some(seq![it] + rest),
            },
        }
    }
}

/// What the item-listing step yields from a list response: the items of
/// the top-level array, or `None` if the document is not such an array.
pub open spec fn item_list_of(s: Seq<u8>) -> Option<Seq<ItemModel>> {
    match json_doc(s) {
        Some(Json::Arr(vs)) => items_of(vs),
        _ => None,
    }
}

/// The label of one field object: the first `label` member, if it is a
/// string; entries without one are skipped.
pub open spec fn label_of(ms: Seq<(Seq<u8>, Json)>) -> Option<Seq<u8>> {
    got_str(ms, label_key())
}

/// The labels contributed by one element of a `fields` array.
pub open spec fn elem_labels(v: Json) -> Seq<Seq<u8>> {
    match v {
        Json::Obj(ms) => match label_of(ms) {
            Some(l) => seq![l],
            None => Seq::empty(),
        },
        _ => Seq::empty(),
    }
}

pub open spec fn labels_of_elems(vs: Seq<Json>) -> Seq<Seq<u8>>
    decreases vs.len(),
{
    if vs.len() == 0 {
        Seq::empty()
    } else {
        elem_labels(vs[0]) + labels_of_elems(vs.drop_first())
    }
}

/// The ordered field labels of an item-detail document: those of its
/// `fields` array; an absent or non-array `fields` member yields none.
pub open spec fn labels_of(j: Json) -> Seq<Seq<u8>> {
    match j {
        Json::Obj(ms) => match obj_lookup(ms, fields_key()) {
            Some(v) => match v {
                Json::Arr(fs) => labels_of_elems(fs),
                _ => Seq::empty(),
            },
            None => Seq::empty(),
        },
        _ => Seq::empty(),
    }
}

/// What the field-enumeration step yields from a detail response.
pub open spec fn labels_list_of(s: Seq<u8>) -> Option<Seq<Seq<u8>>> {
    match json_doc(s) {
        Some(j) => Some(labels_of(j)),
        None => None,
    }
}

pub open spec fn view_opt_bytes(o: Option<Vec<u8>>) -> Option<Seq<u8>> {
    match o {
        Some(v) => Some(v@),
        None => None,
    }
}

pub open spec fn view_bytes_list(v: Seq<Vec<u8>>) -> Seq<Seq<u8>> {
    v.map_values(|x: Vec<u8>| x@)
}

pub open spec fn view_items(v: Seq<Item>) -> Seq<ItemModel> {
    v.map_values(|x: Item| x@)
}

/// The walkers below visit an object's members one by one, carrying for
/// each interesting key a state: not seen yet (`None`), or decided
/// (`Some(x)`, where `x` is the outcome for the whole object).  `merge_got`
/// is what such a state, merged with the members still ahead, decides.
pub open spec fn merge_got(
    acc: Option<Option<Seq<u8>>>,
    ms: Seq<(Seq<u8>, Json)>,
    k: Seq<u8>,
) -> Option<Seq<u8>> {
    match acc {
        Some(x) => x,
        None => got_str(ms, k),
    }
}

/// The model of a carried state as the walkers hold it.
pub open spec fn state_model(o: Option<Option<Vec<u8>>>) -> Option<Option<Seq<u8>>> {
    match o {
        Some(x) => Some(view_opt_bytes(x)),
        None => None,
    }
}

/// What a carried state decides once the walk is over: a state never
/// reached decides the same as an absent member.
pub open spec fn state_outcome(o: Option<Option<Vec<u8>>>) -> Option<Seq<u8>> {
    match o {
        Some(x) => view_opt_bytes(x),
        None => None,
    }
}

/// A `fields` member already decided while walking a detail object,
/// merged with the rest of the members still ahead.
pub open spec fn merge_fields(acc: Option<Seq<Seq<u8>>>, ms: Seq<(Seq<u8>, Json)>) -> Seq<
    Seq<u8>,
> {
    match acc {
        Some(l) => l,
        None => match obj_lookup(ms, fields_key()) {
            Some(v) => match v {
                Json::Arr(fs) => labels_of_elems(fs),
                _ => Seq::empty(),
            },
            None => Seq::empty(),
        },
    }
}

proof fn lemma_obj_lookup_cons(key: Seq<u8>, v: Json, ms2: Seq<(Seq<u8>, Json)>, k0: Seq<u8>)
    ensures
        obj_lookup(seq![(key, v)] + ms2, k0) == (if key == k0 {
            Some(v)
        } else {
            obj_lookup(ms2, k0)
        }),
{
    let ms = seq![(key, v)] + ms2;
    assert(ms[0] == (key, v));
    assert(ms.drop_first() =~= ms2);
}

proof fn lemma_items_of_cons(v: Json, vs2: Seq<Json>)
    ensures
        items_of(seq![v] + vs2) == (match item_of(v) {
            None => None,
            Some(it) => match items_of(vs2) {
                None => None::<Seq<ItemModel>>,
                Some(rest) => Some(seq![it] + rest),
            },
        }),
{
    let vs = seq![v] + vs2;
    assert(vs[0] == v);
    assert(vs.drop_first() =~= vs2);
}

proof fn lemma_labels_of_cons(v: Json, vs2: Seq<Json>)
    ensures
        labels_of_elems(seq![v] + vs2) == elem_labels(v) + labels_of_elems(vs2),
{
    let vs = seq![v] + vs2;
    assert(vs[0] == v);
    assert(vs.drop_first() =~= vs2);
}

fn is_id_key(k: &Vec<u8>) -> (r: bool)
    ensures
        r <==> k@ == id_key(),
{
    let r = k.len() == 2 && k[0] == 105 && k[1] == 100;
    proof {
        if r {
            assert(k@ =~= id_key());
        }
    }
    r
}

fn is_title_key(k: &Vec<u8>) -> (r: bool)
    ensures
        r <==> k@ == title_key(),
{
    let r = k.len() == 5 && k[0] == 116 && k[1] == 105 && k[2] == 116 && k[3] == 108 && k[4]
        == 101;
    proof {
        if r {
            assert(k@ =~= title_key());
        }
    }
    r
}

fn is_fields_key(k: &Vec<u8>) -> (r: bool)
    ensures
        r <==> k@ == fields_key(),
{
    let r = k.len() == 6 && k[0] == 102 && k[1] == 105 && k[2] == 101 && k[3] == 108 && k[4] == 100
        && k[5] == 115;
    proof {
        if r {
            assert(k@ =~= fields_key());
        }
    }
    r
}

fn is_label_key(k: &Vec<u8>) -> (r: bool)
    ensures
        r <==> k@ == label_key(),
{
    let r = k.len() == 5 && k[0] == 108 && k[1] == 97 && k[2] == 98 && k[3] == 101 && k[4] == 108;
    proof {
        if r {
            assert(k@ =~= label_key());
        }
    }
    r
}

fn skip_ws(s: &Vec<u8>, i: usize) -> (r: usize)
    requires
        i <= s@.len(),
    ensures
        r == sp_ws(s@, i as int),
        i <= r <= s@.len(),
{
    let mut j: usize = i;
    while j < s.len() && (s[j] == 32 || s[j] == 9 || s[j] == 10 || s[j] == 13)
        invariant
            i <= j <= s@.len(),
            sp_ws(s@, i as int) == sp_ws(s@, j as int),
        decreases s@.len() - j,
    {
        j = j + 1;
    }
    j
}

fn hex4(s: &Vec<u8>, i: usize) -> (r: Option<u32>)
    requires
        i <= s@.len(),
    ensures
        r == sp_hex4(s@, i as int),
{
    if s.len() - i >= 4 {
        let r0 = hex_digit(s[i]);
        let r1 = hex_digit(s[i + 1]);
        let r2 = hex_digit(s[i + 2]);
        let r3 = hex_digit(s[i + 3]);
        match (r0, r1, r2, r3) {
            (Some(a), Some(b), Some(c), Some(d)) => Some(a * 4096 + b * 256 + c * 16 + d),
            _ => None,
        }
    } else {
        None
    }
}

fn hex_digit(b: u8) -> (r: Option<u32>)
    ensures
        r == hex_val(b),
        r matches Some(v) ==> v < 16,
{
    if 48 <= b && b <= 57 {
        Some((b - 48) as u32)
    } else if 97 <= b && b <= 102 {
        Some((b - 97 + 10) as u32)
    } else if 65 <= b && b <= 70 {
        Some((b - 65 + 10) as u32)
    } else {
        None
    }
}

fn utf8_push(out: &mut Vec<u8>, cp: u32)
    requires
        cp <= 0x10FFFF,
    ensures
        final(out)@ == old(out)@ + utf8_of(cp),
{
    if cp < 0x80 {
        out.push(cp as u8);
        assert(out@ =~= old(out)@ + utf8_of(cp));
    } else if cp < 0x800 {
        out.push((0xC0 + cp / 0x40) as u8);
        out.push((0x80 + cp % 0x40) as u8);
        assert(out@ =~= old(out)@ + utf8_of(cp));
    } else if cp < 0x10000 {
        out.push((0xE0 + cp / 0x1000) as u8);
        out.push((0x80 + (cp / 0x40) % 0x40) as u8);
        out.push((0x80 + cp % 0x40) as u8);
        assert(out@ =~= old(out)@ + utf8_of(cp));
    } else {
        out.push((0xF0 + cp / 0x40000) as u8);
        out.push((0x80 + (cp / 0x1000) % 0x40) as u8);
        out.push((0x80 + (cp / 0x40) % 0x40) as u8);
        out.push((0x80 + cp % 0x40) as u8);
        assert(out@ =~= old(out)@ + utf8_of(cp));
    }
}

fn scan_escape(s: &Vec<u8>, i: usize) -> (r: Option<(Vec<u8>, usize)>)
    requires
        i <= s@.len(),
    ensures
        match sp_escape(s@, i as int) {
            Some(ej) => r matches Some(p) && p.0@ == ej.0 && p.1 == ej.1 && i < p.1 <= s@.len(),
            None => r is None,
        },
{
    if i >= s.len() {
        return None;
    }
    let b = s[i];
    if b == QUOTE || b == BACKSLASH || b == 47 {
        let mut out: Vec<u8> = Vec::new();
        out.push(b);
        assert(out@ =~= seq![b]);
        Some((out, i + 1))
    } else if b == 98 || b == 102 || b == 110 || b == 114 || b == 116 {
        let c: u8 = if b == 98 {
            8
        } else if b == 102 {
            12
        } else if b == 110 {
            10
        } else if b == 114 {
            13
        } else {
            9
        };
        let mut out: Vec<u8> = Vec::new();
        out.push(c);
        assert(out@ =~= seq![c]);
        Some((out, i + 1))
    } else if b == 117 {
        match hex4(s, i + 1) {
            None => None,
            Some(hi) => {
                if 0xD800 <= hi && hi < 0xDC00 {
                    if s.len() - i >= 11 && s[i + 5] == BACKSLASH && s[i + 6] == 117 {
                        match hex4(s, i + 7) {
                            None => None,
                            Some(lo) => {
                                if 0xDC00 <= lo && lo < 0xE000 {
                                    let cp: u32 = 0x10000 + (hi - 0xD800) * 0x400 + (lo - 0xDC00);
                                    let mut out: Vec<u8> = Vec::new();
                                    utf8_push(&mut out, cp);
                                    assert(out@ =~= utf8_of(cp));
                                    Some((out, i + 11))
                                } else {
                                    None
                                }
                            },
                        }
                    } else {
                        None
                    }
                } else if 0xDC00 <= hi && hi < 0xE000 {
                    None
                } else {
                    let mut out: Vec<u8> = Vec::new();
                    utf8_push(&mut out, hi);
                    assert(out@ =~= utf8_of(hi));
                    Some((out, i + 5))
                }
            },
        }
    } else {
        None
    }
}

fn utf8_len_at(s: &Vec<u8>, i: usize) -> (r: usize)
    requires
        i < s@.len(),
    ensures
        r == utf8_seq_len(s@, i as int),
        r != 0 ==> i + r <= s@.len(),
        r <= 4,
{
    let b = s[i];
    if b < 0x80 {
        1
    } else if 0xC2 <= b && b <= 0xDF {
        if s.len() - i >= 2 && 0x80 <= s[i + 1] && s[i + 1] <= 0xBF {
            2
        } else {
            0
        }
    } else if b == 0xE0 {
        if s.len() - i >= 3 && 0xA0 <= s[i + 1] && s[i + 1] <= 0xBF && 0x80 <= s[i + 2] && s[i + 2]
            <= 0xBF {
            3
        } else {
            0
        }
    } else if (0xE1 <= b && b <= 0xEC) || b == 0xEE || b == 0xEF {
        if s.len() - i >= 3 && 0x80 <= s[i + 1] && s[i + 1] <= 0xBF && 0x80 <= s[i + 2] && s[i + 2]
            <= 0xBF {
            3
        } else {
            0
        }
    } else if b == 0xED {
        if s.len() - i >= 3 && 0x80 <= s[i + 1] && s[i + 1] <= 0x9F && 0x80 <= s[i + 2] && s[i + 2]
            <= 0xBF {
            3
        } else {
            0
        }
    } else if b == 0xF0 {
        if s.len() - i >= 4 && 0x90 <= s[i + 1] && s[i + 1] <= 0xBF && 0x80 <= s[i + 2] && s[i + 2]
            <= 0xBF && 0x80 <= s[i + 3] && s[i + 3] <= 0xBF {
            4
        } else {
            0
        }
    } else if 0xF1 <= b && b <= 0xF3 {
        if s.len() - i >= 4 && 0x80 <= s[i + 1] && s[i + 1] <= 0xBF && 0x80 <= s[i + 2] && s[i + 2]
            <= 0xBF && 0x80 <= s[i + 3] && s[i + 3] <= 0xBF {
            4
        } else {
            0
        }
    } else if b == 0xF4 {
        if s.len() - i >= 4 && 0x80 <= s[i + 1] && s[i + 1] <= 0x8F && 0x80 <= s[i + 2] && s[i + 2]
            <= 0xBF && 0x80 <= s[i + 3] && s[i + 3] <= 0xBF {
            4
        } else {
            0
        }
    } else {
        0
    }
}

/// Scan a string body starting just after the opening quote, returning the
/// decoded content and the index after the closing quote.
fn scan_str_body(s: &Vec<u8>, i: usize) -> (r: Option<(Vec<u8>, usize)>)
    requires
        i <= s@.len(),
    ensures
        match sp_str_body(s@, i as int) {
            Some(ce) => r matches Some(p) && p.0@ == ce.0 && p.1 == ce.1 && i < p.1 <= s@.len(),
            None => r is None,
        },
{
    let mut acc: Vec<u8> = Vec::new();
    let mut j: usize = i;
    loop
        invariant
            i <= j <= s@.len(),
            (sp_str_body(s@, i as int) is Some) == (sp_str_body(s@, j as int) is Some),
            sp_str_body(s@, j as int) matches Some(ce) ==> sp_str_body(s@, i as int) == Some(
                (acc@ + ce.0, ce.1),
            ),
        decreases s@.len() - j,
    {
        if j >= s.len() {
            return None;
        }
        let b = s[j];
        if b == QUOTE {
            proof {
                assert(sp_str_body(s@, j as int) == Some((Seq::<u8>::empty(), j + 1 as int)));
                assert(acc@ + Seq::<u8>::empty() =~= acc@);
            }
            return Some((acc, j + 1));
        } else if b == BACKSLASH {
            match scan_escape(s, j + 1) {
                None => {
                    return None;
                },
                Some((eb, j2)) => {
                    proof {
                        match sp_str_body(s@, j2 as int) {
                            Some(ce) => {
                                assert(acc@ + (eb@ + ce.0) =~= (acc@ + eb@) + ce.0);
                            },
                            None => {},
                        }
                    }
                    let mut ebm = eb;
                    acc.append(&mut ebm);
                    j = j2;
                },
            }
        } else if b < 0x20 {
            return None;
        } else {
            let w = utf8_len_at(s, j);
            if w == 0 {
                return None;
            }
            let ghost pre = acc@;
            acc.push(s[j]);
            if w >= 2 {
                acc.push(s[j + 1]);
            }
            if w >= 3 {
                acc.push(s[j + 2]);
            }
            if w == 4 {
                acc.push(s[j + 3]);
            }
            proof {
                assert(acc@ =~= pre + s@.subrange(j as int, j + w as int));
                match sp_str_body(s@, (j + w) as int) {
                    Some(ce) => {
                        assert(pre + (s@.subrange(j as int, j + w as int) + ce.0) =~= acc@ + ce.0);
                    },
                    None => {},
                }
            }
            j = j + w;
        }
    }
}

fn skip_digits(s: &Vec<u8>, i: usize) -> (r: usize)
    requires
        i <= s@.len(),
    ensures
        r == sp_digits(s@, i as int),
        i <= r <= s@.len(),
{
    let mut j: usize = i;
    while j < s.len() && 48 <= s[j] && s[j] <= 57
        invariant
            i <= j <= s@.len(),
            sp_digits(s@, i as int) == sp_digits(s@, j as int),
        decreases s@.len() - j,
    {
        j = j + 1;
    }
    j
}

/// Scan a number starting at `i`, returning the index after it.
fn scan_number(s: &Vec<u8>, i: usize) -> (r: Option<usize>)
    requires
        i <= s@.len(),
    ensures
        match sp_number(s@, i as int) {
            Some(e) => r matches Some(u) && u == e && i < u <= s@.len(),
            None => r is None,
        },
{
    let j: usize = if i < s.len() && s[i] == MINUS {
        i + 1
    } else {
        i
    };
    if !(j < s.len() && 48 <= s[j] && s[j] <= 57) {
        return None;
    }
    let k: usize = if s[j] == 48 {
        j + 1
    } else {
        proof {
            assert(sp_digits(s@, j as int) == sp_digits(s@, j + 1 as int));
        }
        skip_digits(s, j + 1)
    };
    let k2: usize = if k < s.len() && s[k] == 46 {
        let d = skip_digits(s, k + 1);
        if d > k + 1 {
            d
        } else {
            return None;
        }
    } else {
        k
    };
    let k3: usize = if k2 < s.len() && (s[k2] == 101 || s[k2] == 69) {
        let m: usize = if k2 + 1 < s.len() && (s[k2 + 1] == 43 || s[k2 + 1] == MINUS) {
            k2 + 2
        } else {
            k2 + 1
        };
        let d = skip_digits(s, m);
        if d > m {
            d
        } else {
            return None;
        }
    } else {
        k2
    };
    Some(k3)
}

/// Scan past one value starting at `i`, returning the index after it.
fn skip_value(s: &Vec<u8>, i: usize, fuel: usize) -> (r: Option<usize>)
    requires
        i <= s@.len(),
    ensures
        match sp_value(s@, i as int, fuel as nat) {
            Some(ve) => r matches Some(u) && u == ve.1 && i < u <= s@.len(),
            None => r is None,
        },
    decreases fuel, s@.len() - i, 0int,
{
    if fuel == 0 || i >= s.len() {
        return None;
    }
    let b = s[i];
    if b == 110 {
        if s.len() - i >= 4 && s[i + 1] == 117 && s[i + 2] == 108 && s[i + 3] == 108 {
            Some(i + 4)
        } else {
            None
        }
    } else if b == 116 {
        if s.len() - i >= 4 && s[i + 1] == 114 && s[i + 2] == 117 && s[i + 3] == 101 {
            Some(i + 4)
        } else {
            None
        }
    } else if b == 102 {
        if s.len() - i >= 5 && s[i + 1] == 97 && s[i + 2] == 108 && s[i + 3] == 115 && s[i + 4]
            == 101 {
            Some(i + 5)
        } else {
            None
        }
    } else if b == QUOTE {
        match scan_str_body(s, i + 1) {
            None => None,
            Some((_c, e)) => Some(e),
        }
    } else if b == MINUS || (48 <= b && b <= 57) {
        match scan_number(s, i) {
            None => None,
            Some(e) => Some(e),
        }
    } else if b == LBRACKET {
        let j = skip_ws(s, i + 1);
        if j < s.len() && s[j] == RBRACKET {
            Some(j + 1)
        } else if j < s.len() {
            skip_elems(s, j, fuel - 1)
        } else {
            None
        }
    } else if b == LBRACE {
        let j = skip_ws(s, i + 1);
        if j < s.len() && s[j] == RBRACE {
            Some(j + 1)
        } else if j < s.len() {
            skip_members(s, j, fuel - 1)
        } else {
            None
        }
    } else {
        None
    }
}

/// Scan past the elements of an array and its closing bracket.
fn skip_elems(s: &Vec<u8>, i: usize, fuel: usize) -> (r: Option<usize>)
    requires
        i <= s@.len(),
    ensures
        match sp_elems(s@, i as int, fuel as nat) {
            Some(ve) => r matches Some(u) && u == ve.1 && i < u <= s@.len(),
            None => r is None,
        },
    decreases fuel, s@.len() - i, 1int,
{
    match skip_value(s, i, fuel) {
        None => None,
        Some(e) => {
            let k = skip_ws(s, e);
            if k < s.len() && s[k] == RBRACKET {
                Some(k + 1)
            } else if k < s.len() && s[k] == COMMA {
                let i2 = skip_ws(s, k + 1);
                if i < i2 && i2 < s.len() {
                    skip_elems(s, i2, fuel)
                } else {
                    None
                }
            } else {
                None
            }
        },
    }
}

/// Scan past the members of an object and its closing brace.
fn skip_members(s: &Vec<u8>, i: usize, fuel: usize) -> (r: Option<usize>)
    requires
        i <= s@.len(),
    ensures
        match sp_members(s@, i as int, fuel as nat) {
            Some(ve) => r matches Some(u) && u == ve.1 && i < u <= s@.len(),
            None => r is None,
        },
    decreases fuel, s@.len() - i, 1int,
{
    if !(i < s.len() && s[i] == QUOTE) {
        return None;
    }
    match scan_str_body(s, i + 1) {
        None => None,
        Some((_key, ke)) => {
            let c = skip_ws(s, ke);
            if !(c < s.len() && s[c] == COLON) {
                return None;
            }
            let vi = skip_ws(s, c + 1);
            if !(i < vi && vi < s.len()) {
                return None;
            }
            match skip_value(s, vi, fuel) {
                None => None,
                Some(e) => {
                    let k = skip_ws(s, e);
                    if k < s.len() && s[k] == RBRACE {
                        Some(k + 1)
                    } else if k < s.len() && s[k] == COMMA {
                        let i2 = skip_ws(s, k + 1);
                        if i < i2 && i2 < s.len() {
                            skip_members(s, i2, fuel)
                        } else {
                            None
                        }
                    } else {
                        None
                    }
                },
            }
        },
    }
}

/// One step of a member walk: consuming the member `(key, v0)` updates a
/// carried state exactly as `merge_got` over the remaining members asks.
proof fn lemma_merge_step(
    key: Seq<u8>,
    v0: Json,
    ms2: Seq<(Seq<u8>, Json)>,
    acc: Option<Option<Seq<u8>>>,
    acc2: Option<Option<Seq<u8>>>,
    k0: Seq<u8>,
)
    requires
        acc2 == (if acc is None && key == k0 {
            Some(
                match v0 {
                    Json::Str(c) => Some(c),
                    _ => None::<Seq<u8>>,
                },
            )
        } else {
            acc
        }),
    ensures
        merge_got(acc, seq![(key, v0)] + ms2, k0) == merge_got(acc2, ms2, k0),
{
    lemma_obj_lookup_cons(key, v0, ms2, k0);
}

proof fn lemma_elems_first(s: Seq<u8>, i: int, fuel: nat)
    requires
        sp_elems(s, i, fuel) is Some,
    ensures
        sp_value(s, i, fuel) is Some,
        (sp_elems(s, i, fuel)->0).0.len() >= 1,
        (sp_elems(s, i, fuel)->0).0[0] == (sp_value(s, i, fuel)->0).0,
{
    match sp_value(s, i, fuel) {
        Some(ve) => {
            let k = sp_ws(s, ve.1);
            if k < s.len() && s[k] == RBRACKET {
                assert(seq![ve.0][0] == ve.0);
            } else if k < s.len() && s[k] == COMMA {
                let i2 = sp_ws(s, k + 1);
                if i < i2 < s.len() {
                    match sp_elems(s, i2, fuel) {
                        Some(r2) => {
                            assert((seq![ve.0] + r2.0)[0] == ve.0);
                        },
                        None => {},
                    }
                }
            }
        },
        None => {},
    }
}

/// Walk an object's members from the first key, carrying the states of
/// the `id` and `title` members, and return the final states and the
/// index after the closing brace.
#[verifier::rlimit(50)]
fn p_item_members(
    s: &Vec<u8>,
    i: usize,
    fuel: usize,
    id_acc: Option<Option<Vec<u8>>>,
    ti_acc: Option<Option<Vec<u8>>>,
) -> (r: Option<(Option<Option<Vec<u8>>>, Option<Option<Vec<u8>>>, usize)>)
    requires
        i <= s@.len(),
    ensures
        match sp_members(s@, i as int, fuel as nat) {
            Some(me) => r matches Some(t) && state_outcome(t.0) == merge_got(
                state_model(id_acc),
                me.0,
                id_key(),
            ) && state_outcome(t.1) == merge_got(state_model(ti_acc), me.0, title_key()) && t.2
                == me.1 && i < t.2 <= s@.len(),
            None => r is None,
        },
    decreases fuel, s@.len() - i, 1int,
{
    if !(i < s.len() && s[i] == QUOTE) {
        return None;
    }
    match scan_str_body(s, i + 1) {
        None => None,
        Some((key, ke)) => {
            let c = skip_ws(s, ke);
            if !(c < s.len() && s[c] == COLON) {
                return None;
            }
            let vi = skip_ws(s, c + 1);
            if !(i < vi && vi < s.len()) {
                return None;
            }
            if fuel == 0 {
                return None;
            }
            let cap_id = id_acc.is_none() && is_id_key(&key);
            let cap_ti = ti_acc.is_none() && is_title_key(&key);
            let mut id_cur = id_acc;
            let mut ti_cur = ti_acc;
            let e: usize;
            if cap_id || cap_ti {
                if s[vi] == QUOTE {
                    match scan_str_body(s, vi + 1) {
                        None => {
                            return None;
                        },
                        Some((sv, e1)) => {
                            proof {
                                assert(sp_value(s@, vi as int, fuel as nat) == Some(
                                    (Json::Str(sv@), e1 as int),
                                ));
                            }
                            if cap_id {
                                id_cur = Some(Some(sv));
                            } else {
                                ti_cur = Some(Some(sv));
                            }
                            e = e1;
                        },
                    }
                } else {
                    match skip_value(s, vi, fuel) {
                        None => {
                            return None;
                        },
                        Some(e1) => {
                            proof {
                                assert(!((sp_value(s@, vi as int, fuel as nat)->0).0 is Str));
                            }
                            if cap_id {
                                id_cur = Some(None);
                            } else {
                                ti_cur = Some(None);
                            }
                            e = e1;
                        },
                    }
                }
            } else {
                match skip_value(s, vi, fuel) {
                    None => {
                        return None;
                    },
                    Some(e1) => {
                        e = e1;
                    },
                }
            }
            let ghost v0 = (sp_value(s@, vi as int, fuel as nat)->0).0;
            proof {
                lemma_merge_step(
                    key@,
                    v0,
                    Seq::empty(),
                    state_model(id_acc),
                    state_model(id_cur),
                    id_key(),
                );
                lemma_merge_step(
                    key@,
                    v0,
                    Seq::empty(),
                    state_model(ti_acc),
                    state_model(ti_cur),
                    title_key(),
                );
            }
            let k = skip_ws(s, e);
            if k < s.len() && s[k] == RBRACE {
                proof {
                    let ms = seq![(key@, v0)];
                    assert(ms =~= seq![(key@, v0)] + Seq::<(Seq<u8>, Json)>::empty());
                    assert(sp_members(s@, i as int, fuel as nat) == Some((ms, k + 1 as int)));
                    assert(obj_lookup(Seq::<(Seq<u8>, Json)>::empty(), id_key()) is None);
                    assert(obj_lookup(Seq::<(Seq<u8>, Json)>::empty(), title_key()) is None);
                    assert(state_outcome(id_cur) == merge_got(state_model(id_acc), ms, id_key()));
                    assert(state_outcome(ti_cur) == merge_got(
                        state_model(ti_acc),
                        ms,
                        title_key(),
                    ));
                }
                Some((id_cur, ti_cur, k + 1))
            } else if k < s.len() && s[k] == COMMA {
                let i2 = skip_ws(s, k + 1);
                if i < i2 && i2 < s.len() {
                    let rr = p_item_members(s, i2, fuel, id_cur, ti_cur);
                    proof {
                        match sp_members(s@, i2 as int, fuel as nat) {
                            Some(me2) => {
                                lemma_merge_step(
                                    key@,
                                    v0,
                                    me2.0,
                                    state_model(id_acc),
                                    state_model(id_cur),
                                    id_key(),
                                );
                                lemma_merge_step(
                                    key@,
                                    v0,
                                    me2.0,
                                    state_model(ti_acc),
                                    state_model(ti_cur),
                                    title_key(),
                                );
                                assert(sp_members(s@, i as int, fuel as nat) == Some(
                                    (seq![(key@, v0)] + me2.0, me2.1),
                                ));
                            },
                            None => {},
                        }
                    }
                    rr
                } else {
                    None
                }
            } else {
                None
            }
        },
    }
}

/// Walk the elements of a list response from the first element,
/// collecting one item from each, and return them with the index after
/// the closing bracket.
fn p_items_elems(s: &Vec<u8>, i: usize, fuel: usize) -> (r: Option<(Vec<Item>, usize)>)
    requires
        i <= s@.len(),
    ensures
        match sp_elems(s@, i as int, fuel as nat) {
            Some(ve) => match items_of(ve.0) {
                Some(its) => r matches Some(p) && view_items(p.0@) == its && p.1 == ve.1 && i < p.1
                    <= s@.len(),
                None => r is None,
            },
            None => r is None,
        },
    decreases fuel, s@.len() - i, 2int,
{
    if fuel == 0 || i >= s.len() {
        return None;
    }
    if s[i] != LBRACE {
        proof {
            if sp_elems(s@, i as int, fuel as nat) is Some {
                lemma_elems_first(s@, i as int, fuel as nat);
                assert(!((sp_value(s@, i as int, fuel as nat)->0).0 is Obj));
            }
        }
        return None;
    }
    let j = skip_ws(s, i + 1);
    if j < s.len() && s[j] == RBRACE {
        proof {
            if sp_elems(s@, i as int, fuel as nat) is Some {
                lemma_elems_first(s@, i as int, fuel as nat);
                assert(sp_value(s@, i as int, fuel as nat) == Some(
                    (Json::Obj(Seq::<(Seq<u8>, Json)>::empty()), j + 1 as int),
                ));
                assert(obj_lookup(Seq::<(Seq<u8>, Json)>::empty(), id_key()) is None);
            }
        }
        return None;
    }
    if j >= s.len() {
        return None;
    }
    match p_item_members(s, j, fuel - 1, None, None) {
        None => None,
        Some((ids, tis, e)) => {
            let ghost ms = (sp_members(s@, j as int, (fuel - 1) as nat)->0).0;
            let ghost v0 = Json::Obj(ms);
            proof {
                assert(sp_value(s@, i as int, fuel as nat) == Some((v0, e as int)));
            }
            let idv: Vec<u8> = match ids {
                Some(Some(x)) => x,
                _ => {
                    return None;
                },
            };
            let tiv: Vec<u8> = match tis {
                Some(Some(x)) => x,
                _ => {
                    return None;
                },
            };
            let ghost it = ItemModel { id: idv@, title: tiv@ };
            proof {
                assert(item_of(v0) == Some(it));
            }
            let k = skip_ws(s, e);
            if k < s.len() && s[k] == RBRACKET {
                let mut out: Vec<Item> = Vec::new();
                out.push(Item { id: idv, title: tiv });
                proof {
                    assert(sp_elems(s@, i as int, fuel as nat) == Some((seq![v0], k + 1 as int)));
                    lemma_items_of_cons(v0, Seq::empty());
                    assert(seq![v0] + Seq::<Json>::empty() =~= seq![v0]);
                    assert(items_of(Seq::<Json>::empty()) == Some(Seq::<ItemModel>::empty()));
                    assert(seq![it] + Seq::<ItemModel>::empty() =~= seq![it]);
                    assert(view_items(out@) =~= seq![it]);
                }
                Some((out, k + 1))
            } else if k < s.len() && s[k] == COMMA {
                let i2 = skip_ws(s, k + 1);
                if i < i2 && i2 < s.len() {
                    match p_items_elems(s, i2, fuel) {
                        None => {
                            proof {
                                match sp_elems(s@, i2 as int, fuel as nat) {
                                    Some(r2) => {
                                        lemma_items_of_cons(v0, r2.0);
                                    },
                                    None => {},
                                }
                            }
                            None
                        },
                        Some((rest, e2)) => {
                            let ghost vs2 = (sp_elems(s@, i2 as int, fuel as nat)->0).0;
                            let ghost restm = view_items(rest@);
                            let mut out = rest;
                            out.insert(0, Item { id: idv, title: tiv });
                            proof {
                                lemma_items_of_cons(v0, vs2);
                                assert(view_items(out@) =~= seq![it] + restm);
                            }
                            Some((out, e2))
                        },
                    }
                } else {
                    None
                }
            } else {
                None
            }
        },
    }
}

proof fn lemma_items_of_shape(vs: Seq<Json>)
    requires
        items_of(vs) is Some,
    ensures
        (items_of(vs)->0).len() == vs.len(),
        forall|k: int| 0 <= k < vs.len() ==> #[trigger] item_of(vs[k]) is Some,
        forall|k: int| 0 <= k < vs.len() ==> (items_of(vs)->0)[k] == item_of(vs[k])->0,
    decreases vs.len(),
{
    if vs.len() > 0 {
        lemma_items_of_shape(vs.drop_first());
        let rest = items_of(vs.drop_first())->0;
        let it0 = item_of(vs[0])->0;
        assert(items_of(vs)->0 =~= seq![it0] + rest);
        assert forall|k: int| 0 <= k < vs.len() implies #[trigger] item_of(vs[k]) is Some by {
            if k > 0 {
                assert(vs.drop_first()[k - 1] == vs[k]);
            }
        }
        assert forall|k: int| 0 <= k < vs.len() implies (items_of(vs)->0)[k] == item_of(vs[k])->0 by {
            if k == 0 {
                assert((seq![it0] + rest)[0] == it0);
            } else {
                assert(vs.drop_first()[k - 1] == vs[k]);
                assert((seq![it0] + rest)[k] == rest[k - 1]);
            }
        }
    }
}

/// Order preservation: a well-formed list response whose array holds `N`
/// values yields exactly `N` items, the `k`-th item read from the `k`-th
/// value of the response.
pub proof fn lemma_item_order_preserved(s: Seq<u8>, vs: Seq<Json>)
    requires
        json_doc(s) == Some(Json::Arr(vs)),
        item_list_of(s) is Some,
    ensures
        (item_list_of(s)->0).len() == vs.len(),
        forall|k: int| 0 <= k < vs.len() ==> #[trigger] item_of(vs[k]) is Some,
        forall|k: int| 0 <= k < vs.len() ==> (item_list_of(s)->0)[k] == item_of(vs[k])->0,
{
    lemma_items_of_shape(vs);
}

/// Parse a list response: a JSON array of objects, each an item with
/// string members `id` and `title`.  Returns the items in response order,
/// or `None` exactly when the document is not such a list.
pub fn parse_item_list(s: &Vec<u8>) -> (r: Option<Vec<Item>>)
    ensures
        (r is Some) <==> (item_list_of(s@) is Some),
        r matches Some(v) ==> view_items(v@) == item_list_of(s@)->0,
{
    let n: usize = s.len();
    let i = skip_ws(s, 0);
    if i >= n {
        return None;
    }
    if s[i] != LBRACKET {
        proof {
            assert(match sp_value(s@, i as int, n as nat) {
                Some(ve) => !(ve.0 is Arr),
                None => true,
            });
        }
        return None;
    }
    let j = skip_ws(s, i + 1);
    if j < n && s[j] == RBRACKET {
        let e = skip_ws(s, j + 1);
        if e == n {
            proof {
                assert(sp_value(s@, i as int, n as nat) == Some(
                    (Json::Arr(Seq::<Json>::empty()), j + 1 as int),
                ));
                assert(items_of(Seq::<Json>::empty()) == Some(Seq::<ItemModel>::empty()));
                assert(view_items(Seq::<Item>::empty()) =~= Seq::<ItemModel>::empty());
            }
            let out: Vec<Item> = Vec::new();
            return Some(out);
        } else {
            return None;
        }
    }
    if j >= n {
        return None;
    }
    match p_items_elems(s, j, n - 1) {
        None => None,
        Some((v, e)) => {
            let e2 = skip_ws(s, e);
            if e2 == n {
                Some(v)
            } else {
                None
            }
        },
    }
}

/// The model of a carried `fields` state.
pub open spec fn view_opt_labels(o: Option<Vec<Vec<u8>>>) -> Option<Seq<Seq<u8>>> {
    match o {
        Some(l) => Some(view_bytes_list(l@)),
        None => None,
    }
}

/// What a carried `fields` state decides once the walk is over.
pub open spec fn labels_outcome(o: Option<Vec<Vec<u8>>>) -> Seq<Seq<u8>> {
    match o {
        Some(l) => view_bytes_list(l@),
        None => Seq::empty(),
    }
}

/// One step of the detail walk: consuming the member `(key, v0)` updates
/// a carried `fields` state exactly as `merge_fields` asks.
proof fn lemma_fields_step(
    key: Seq<u8>,
    v0: Json,
    ms2: Seq<(Seq<u8>, Json)>,
    acc: Option<Seq<Seq<u8>>>,
    acc2: Option<Seq<Seq<u8>>>,
)
    requires
        acc2 == (if acc is None && key == fields_key() {
            Some(
                match v0 {
                    Json::Arr(fs) => labels_of_elems(fs),
                    _ => Seq::<Seq<u8>>::empty(),
                },
            )
        } else {
            acc
        }),
    ensures
        merge_fields(acc, seq![(key, v0)] + ms2) == merge_fields(acc2, ms2),
{
    lemma_obj_lookup_cons(key, v0, ms2, fields_key());
}

/// Walk one field object's members, carrying the state of its `label`
/// member.
#[verifier::rlimit(50)]
fn p_field_members(s: &Vec<u8>, i: usize, fuel: usize, lab_acc: Option<Option<Vec<u8>>>) -> (r:
    Option<(Option<Option<Vec<u8>>>, usize)>)
    requires
        i <= s@.len(),
    ensures
        match sp_members(s@, i as int, fuel as nat) {
            Some(me) => r matches Some(t) && state_outcome(t.0) == merge_got(
                state_model(lab_acc),
                me.0,
                label_key(),
            ) && t.1 == me.1 && i < t.1 <= s@.len(),
            None => r is None,
        },
    decreases fuel, s@.len() - i, 1int,
{
    if !(i < s.len() && s[i] == QUOTE) {
        return None;
    }
    match scan_str_body(s, i + 1) {
        None => None,
        Some((key, ke)) => {
            let c = skip_ws(s, ke);
            if !(c < s.len() && s[c] == COLON) {
                return None;
            }
            let vi = skip_ws(s, c + 1);
            if !(i < vi && vi < s.len()) {
                return None;
            }
            if fuel == 0 {
                return None;
            }
            let cap = lab_acc.is_none() && is_label_key(&key);
            let mut lab_cur = lab_acc;
            let e: usize;
            if cap && s[vi] == QUOTE {
                match scan_str_body(s, vi + 1) {
                    None => {
                        return None;
                    },
                    Some((sv, e1)) => {
                        proof {
                            assert(sp_value(s@, vi as int, fuel as nat) == Some(
                                (Json::Str(sv@), e1 as int),
                            ));
                        }
                        lab_cur = Some(Some(sv));
                        e = e1;
                    },
                }
            } else {
                match skip_value(s, vi, fuel) {
                    None => {
                        return None;
                    },
                    Some(e1) => {
                        proof {
                            if cap {
                                assert(!((sp_value(s@, vi as int, fuel as nat)->0).0 is Str));
                            }
                        }
                        if cap {
                            lab_cur = Some(None);
                        }
                        e = e1;
                    },
                }
            }
            let ghost v0 = (sp_value(s@, vi as int, fuel as nat)->0).0;
            proof {
                lemma_merge_step(
                    key@,
                    v0,
                    Seq::empty(),
                    state_model(lab_acc),
                    state_model(lab_cur),
                    label_key(),
                );
            }
            let k = skip_ws(s, e);
            if k < s.len() && s[k] == RBRACE {
                proof {
                    let ms = seq![(key@, v0)];
                    assert(ms =~= seq![(key@, v0)] + Seq::<(Seq<u8>, Json)>::empty());
                    assert(sp_members(s@, i as int, fuel as nat) == Some((ms, k + 1 as int)));
                    assert(obj_lookup(Seq::<(Seq<u8>, Json)>::empty(), label_key()) is None);
                }
                Some((lab_cur, k + 1))
            } else if k < s.len() && s[k] == COMMA {
                let i2 = skip_ws(s, k + 1);
                if i < i2 && i2 < s.len() {
                    let rr = p_field_members(s, i2, fuel, lab_cur);
                    proof {
                        match sp_members(s@, i2 as int, fuel as nat) {
                            Some(me2) => {
                                lemma_merge_step(
                                    key@,
                                    v0,
                                    me2.0,
                                    state_model(lab_acc),
                                    state_model(lab_cur),
                                    label_key(),
                                );
                                assert(sp_members(s@, i as int, fuel as nat) == Some(
                                    (seq![(key@, v0)] + me2.0, me2.1),
                                ));
                            },
                            None => {},
                        }
                    }
                    rr
                } else {
                    None
                }
            } else {
                None
            }
        },
    }
}

/// Walk the elements of a `fields` array, collecting the labels of the
/// field objects among them.
#[verifier::rlimit(50)]
fn p_fields_elems(s: &Vec<u8>, i: usize, fuel: usize) -> (r: Option<(Vec<Vec<u8>>, usize)>)
    requires
        i <= s@.len(),
    ensures
        match sp_elems(s@, i as int, fuel as nat) {
            Some(ve) => r matches Some(p) && view_bytes_list(p.0@) == labels_of_elems(ve.0) && p.1
                == ve.1 && i < p.1 <= s@.len(),
            None => r is None,
        },
    decreases fuel, s@.len() - i, 2int,
{
    if fuel == 0 || i >= s.len() {
        return None;
    }
    let got_lab: Option<Vec<u8>>;
    let e: usize;
    if s[i] == LBRACE {
        let j = skip_ws(s, i + 1);
        if j < s.len() && s[j] == RBRACE {
            proof {
                assert(sp_value(s@, i as int, fuel as nat) == Some(
                    (Json::Obj(Seq::<(Seq<u8>, Json)>::empty()), j + 1 as int),
                ));
                assert(obj_lookup(Seq::<(Seq<u8>, Json)>::empty(), label_key()) is None);
            }
            got_lab = None;
            e = j + 1;
        } else if j < s.len() {
            match p_field_members(s, j, fuel - 1, None) {
                None => {
                    return None;
                },
                Some((st, e1)) => {
                    proof {
                        assert(sp_value(s@, i as int, fuel as nat) == Some(
                            (
                                Json::Obj((sp_members(s@, j as int, (fuel - 1) as nat)->0).0),
                                e1 as int,
                            ),
                        ));
                    }
                    got_lab = match st {
                        Some(Some(x)) => Some(x),
                        _ => None,
                    };
                    e = e1;
                },
            }
        } else {
            return None;
        }
    } else {
        match skip_value(s, i, fuel) {
            None => {
                return None;
            },
            Some(e1) => {
                proof {
                    assert(!((sp_value(s@, i as int, fuel as nat)->0).0 is Obj));
                }
                got_lab = None;
                e = e1;
            },
        }
    }
    let ghost v0 = (sp_value(s@, i as int, fuel as nat)->0).0;
    let ghost cl = elem_labels(v0);
    proof {
        assert(match got_lab {
            Some(l) => cl == seq![l@],
            None => cl == Seq::<Seq<u8>>::empty(),
        });
    }
    let k = skip_ws(s, e);
    if k < s.len() && s[k] == RBRACKET {
        proof {
            assert(sp_elems(s@, i as int, fuel as nat) == Some((seq![v0], k + 1 as int)));
            lemma_labels_of_cons(v0, Seq::empty());
            assert(seq![v0] + Seq::<Json>::empty() =~= seq![v0]);
        }
        let mut out: Vec<Vec<u8>> = Vec::new();
        match got_lab {
            Some(l) => {
                out.push(l);
                proof {
                    assert(view_bytes_list(out@) =~= cl + Seq::<Seq<u8>>::empty());
                }
            },
            None => {
                proof {
                    assert(view_bytes_list(out@) =~= cl + Seq::<Seq<u8>>::empty());
                }
            },
        }
        Some((out, k + 1))
    } else if k < s.len() && s[k] == COMMA {
        let i2 = skip_ws(s, k + 1);
        if i < i2 && i2 < s.len() {
            match p_fields_elems(s, i2, fuel) {
                None => {
                    proof {
                        match sp_elems(s@, i2 as int, fuel as nat) {
                            Some(r2) => {
                                lemma_labels_of_cons(v0, r2.0);
                            },
                            None => {},
                        }
                    }
                    None
                },
                Some((rest, e2)) => {
                    let ghost vs2 = (sp_elems(s@, i2 as int, fuel as nat)->0).0;
                    let ghost restm = view_bytes_list(rest@);
                    let mut out = rest;
                    match got_lab {
                        Some(l) => {
                            out.insert(0, l);
                            proof {
                                lemma_labels_of_cons(v0, vs2);
                                assert(view_bytes_list(out@) =~= cl + restm);
                            }
                        },
                        None => {
                            proof {
                                lemma_labels_of_cons(v0, vs2);
                                assert(view_bytes_list(out@) =~= cl + restm);
                            }
                        },
                    }
                    Some((out, e2))
                },
            }
        } else {
            None
        }
    } else {
        None
    }
}

/// Walk the members of a detail object, carrying the state of its
/// `fields` member.
#[verifier::rlimit(50)]
fn p_label_members(s: &Vec<u8>, i: usize, fuel: usize, acc: Option<Vec<Vec<u8>>>) -> (r: Option<
    (Option<Vec<Vec<u8>>>, usize),
>)
    requires
        i <= s@.len(),
    ensures
        match sp_members(s@, i as int, fuel as nat) {
            Some(me) => r matches Some(t) && labels_outcome(t.0) == merge_fields(
                view_opt_labels(acc),
                me.0,
            ) && t.1 == me.1 && i < t.1 <= s@.len(),
            None => r is None,
        },
    decreases fuel, s@.len() - i, 1int,
{
    if !(i < s.len() && s[i] == QUOTE) {
        return None;
    }
    match scan_str_body(s, i + 1) {
        None => None,
        Some((key, ke)) => {
            let c = skip_ws(s, ke);
            if !(c < s.len() && s[c] == COLON) {
                return None;
            }
            let vi = skip_ws(s, c + 1);
            if !(i < vi && vi < s.len()) {
                return None;
            }
            if fuel == 0 {
                return None;
            }
            let cap = acc.is_none() && is_fields_key(&key);
            let mut cur = acc;
            let e: usize;
            if cap && s[vi] == LBRACKET {
                let j2 = skip_ws(s, vi + 1);
                if j2 < s.len() && s[j2] == RBRACKET {
                    proof {
                        assert(sp_value(s@, vi as int, fuel as nat) == Some(
                            (Json::Arr(Seq::<Json>::empty()), j2 + 1 as int),
                        ));
                    }
                    cur = Some(Vec::new());
                    e = j2 + 1;
                } else if j2 < s.len() {
                    match p_fields_elems(s, j2, fuel - 1) {
                        None => {
                            return None;
                        },
                        Some((ls, e1)) => {
                            proof {
                                assert(sp_value(s@, vi as int, fuel as nat) == Some(
                                    (
                                        Json::Arr((sp_elems(s@, j2 as int, (fuel - 1) as nat)->0).0),
                                        e1 as int,
                                    ),
                                ));
                            }
                            cur = Some(ls);
                            e = e1;
                        },
                    }
                } else {
                    return None;
                }
            } else {
                match skip_value(s, vi, fuel) {
                    None => {
                        return None;
                    },
                    Some(e1) => {
                        proof {
                            if cap {
                                assert(!((sp_value(s@, vi as int, fuel as nat)->0).0 is Arr));
                            }
                        }
                        if cap {
                            cur = Some(Vec::new());
                        }
                        e = e1;
                    },
                }
            }
            let ghost v0 = (sp_value(s@, vi as int, fuel as nat)->0).0;
            proof {
                assert(view_bytes_list(Seq::<Vec<u8>>::empty()) =~= Seq::<Seq<u8>>::empty());
                lemma_fields_step(key@, v0, Seq::empty(), view_opt_labels(acc), view_opt_labels(cur));
            }
            let k = skip_ws(s, e);
            if k < s.len() && s[k] == RBRACE {
                proof {
                    let ms = seq![(key@, v0)];
                    assert(ms =~= seq![(key@, v0)] + Seq::<(Seq<u8>, Json)>::empty());
                    assert(sp_members(s@, i as int, fuel as nat) == Some((ms, k + 1 as int)));
                    assert(obj_lookup(Seq::<(Seq<u8>, Json)>::empty(), fields_key()) is None);
                }
                Some((cur, k + 1))
            } else if k < s.len() && s[k] == COMMA {
                let i2 = skip_ws(s, k + 1);
                if i < i2 && i2 < s.len() {
                    let rr = p_label_members(s, i2, fuel, cur);
                    proof {
                        match sp_members(s@, i2 as int, fuel as nat) {
                            Some(me2) => {
                                lemma_fields_step(
                                    key@,
                                    v0,
                                    me2.0,
                                    view_opt_labels(acc),
                                    view_opt_labels(cur),
                                );
                                assert(sp_members(s@, i as int, fuel as nat) == Some(
                                    (seq![(key@, v0)] + me2.0, me2.1),
                                ));
                            },
                            None => {},
                        }
                    }
                    rr
                } else {
                    None
                }
            } else {
                None
            }
        },
    }
}

/// Parse an item-detail response and return the ordered labels of its
/// `fields` array, or `None` exactly when the document is not valid JSON.
/// A detail without a `fields` array yields no labels.
pub fn parse_field_labels(s: &Vec<u8>) -> (r: Option<Vec<Vec<u8>>>)
    ensures
        (r is Some) <==> (labels_list_of(s@) is Some),
        r matches Some(v) ==> view_bytes_list(v@) == labels_list_of(s@)->0,
{
    let n: usize = s.len();
    let i = skip_ws(s, 0);
    if i >= n {
        return None;
    }
    if s[i] == LBRACE {
        let j = skip_ws(s, i + 1);
        if j < n && s[j] == RBRACE {
            let e = skip_ws(s, j + 1);
            if e == n {
                proof {
                    assert(sp_value(s@, i as int, n as nat) == Some(
                        (Json::Obj(Seq::<(Seq<u8>, Json)>::empty()), j + 1 as int),
                    ));
                    assert(obj_lookup(Seq::<(Seq<u8>, Json)>::empty(), fields_key()) is None);
                    assert(view_bytes_list(Seq::<Vec<u8>>::empty()) =~= Seq::<Seq<u8>>::empty());
                }
                let out: Vec<Vec<u8>> = Vec::new();
                return Some(out);
            } else {
                return None;
            }
        }
        if j >= n {
            return None;
        }
        match p_label_members(s, j, n - 1, None) {
            None => None,
            Some((st, e)) => {
                let e2 = skip_ws(s, e);
                if e2 == n {
                    proof {
                        assert(sp_value(s@, i as int, n as nat) == Some(
                            (
                                Json::Obj((sp_members(s@, j as int, (n - 1) as nat)->0).0),
                                e as int,
                            ),
                        ));
                        assert(view_bytes_list(Seq::<Vec<u8>>::empty()) =~= Seq::<
                            Seq<u8>,
                        >::empty());
                    }
                    let out: Vec<Vec<u8>> = match st {
                        Some(l) => l,
                        None => Vec::new(),
                    };
                    Some(out)
                } else {
                    None
                }
            },
        }
    } else {
        match skip_value(s, i, n) {
            None => None,
            Some(e) => {
                let e2 = skip_ws(s, e);
                if e2 == n {
                    proof {
                        assert(!((sp_value(s@, i as int, n as nat)->0).0 is Obj));
                        assert(view_bytes_list(Seq::<Vec<u8>>::empty()) =~= Seq::<
                            Seq<u8>,
                        >::empty());
                    }
                    let out: Vec<Vec<u8>> = Vec::new();
                    Some(out)
                } else {
                    None
                }
            },
        }
    }
}

} // verus!
