//! This module implements support for the iTerm2 images protocol.
//!
//! iTerm2 uses the OSC 1337 for many non-standard commands, but only the one
//! that adds an inline graphic is supported.
//!
//! The `width` and `height` parameters, which ask for the graphic in another
//! size, are supported too.

use vstd::prelude::*;
use vstd::slice::{slice_subrange, slice_to_vec};
use vstd::string::StringSliceAdditionalSpecFns;
use vstd::utf8::valid_utf8;
use crate::codec::{base64_decoded, decode_base64, text_of};
use crate::graphics::{GraphicData, GraphicDataView, GraphicId, ResizeCommand, ResizeParameter};
use crate::resize::image_view;

verus! {

/// Index of the first byte of `s` from `from` on for which `wanted` holds, or
/// the length of `s` if there is none.
pub open spec fn first_from(s: Seq<u8>, wanted: spec_fn(u8) -> bool, from: int) -> int
    decreases s.len() - from,
{
    if 0 <= from < s.len() && !wanted(s[from]) {
        first_from(s, wanted, from + 1)
    } else {
        from
    }
}

/// The bytes that are `byte`.
pub open spec fn is_byte(byte: u8) -> spec_fn(u8) -> bool {
    |b: u8| b == byte
}

/// The bytes that are no digit.
pub open spec fn is_other() -> spec_fn(u8) -> bool {
    |b: u8| !is_digit(b)
}

/// Index of the first byte `byte` of `s`, or the length of `s` if there is
/// none.
pub open spec fn first_of(s: Seq<u8>, byte: u8) -> int {
    first_from(s, is_byte(byte), 0)
}

/// `byte` is one of the digits `0` to `9`.
pub open spec fn is_digit(byte: u8) -> bool {
    0x30 <= byte <= 0x39
}

/// Index of the first byte of `s` that is no digit, or the length of `s` if
/// there is none.
pub open spec fn first_nondigit(s: Seq<u8>) -> int {
    first_from(s, is_other(), 0)
}

proof fn lemma_first_from(s: Seq<u8>, wanted: spec_fn(u8) -> bool, from: int, i: int)
    requires
        0 <= from <= i <= s.len(),
        forall|j: int| from <= j < i ==> !wanted(#[trigger] s[j]),
        i < s.len() ==> wanted(s[i]),
    ensures
        first_from(s, wanted, from) == i,
    decreases i - from,
{
    if from < i {
        lemma_first_from(s, wanted, from + 1, i);
    }
}

/// Index of the first byte `byte` of `slice`.
fn position(slice: &[u8], byte: u8) -> (i: usize)
    ensures
        i == first_of(slice@, byte),
        i <= slice@.len(),
        i < slice@.len() ==> slice@[i as int] == byte,
{
    let mut i: usize = 0;
    while i < slice.len() && slice[i] != byte
        invariant
            i <= slice@.len(),
            forall|j: int| 0 <= j < i ==> #[trigger] slice@[j] != byte,
        decreases slice@.len() - i,
    {
        i = i + 1;
    }
    proof {
        lemma_first_from(slice@, is_byte(byte), 0, i as int);
    }
    i
}

/// Index of the first byte of `slice` that is no digit.
fn position_nondigit(slice: &[u8]) -> (i: usize)
    ensures
        i == first_nondigit(slice@),
        i <= slice@.len(),
        forall|j: int| 0 <= j < i ==> is_digit(#[trigger] slice@[j]),
        i < slice@.len() ==> !is_digit(slice@[i as int]),
{
    let mut i: usize = 0;
    while i < slice.len() && 0x30 <= slice[i] && slice[i] <= 0x39
        invariant
            i <= slice@.len(),
            forall|j: int| 0 <= j < i ==> is_digit(#[trigger] slice@[j]),
        decreases slice@.len() - i,
    {
        i = i + 1;
    }
    proof {
        lemma_first_from(slice@, is_other(), 0, i as int);
    }
    i
}

/// Whether two slices hold the same bytes.
fn same_bytes(a: &[u8], b: &[u8]) -> (same: bool)
    ensures
        same == (a@ == b@),
{
    if a.len() != b.len() {
        return false;
    }
    let mut i: usize = 0;
    while i < a.len()
        invariant
            a@.len() == b@.len(),
            i <= a@.len(),
            forall|j: int| 0 <= j < i ==> a@[j] == b@[j],
        decreases a@.len() - i,
    {
        if a[i] != b[i] {
            return false;
        }
        i = i + 1;
    }
    proof {
        assert(a@ =~= b@);
    }
    true
}

/// A parameter of the sequence: a name and what stands behind its `=`.
#[derive(Clone, Debug, PartialEq, Eq)]
pub struct Param {
    pub key: Vec<u8>,
    pub value: Vec<u8>,
}

/// The value that `entries` hold for `key`: that of the last entry with that
/// name.
pub open spec fn value_of(entries: Seq<Param>, key: Seq<u8>) -> Option<Seq<u8>>
    decreases entries.len(),
{
    if entries.len() == 0 {
        None
    } else if entries.last().key@ == key {
        Some(entries.last().value@)
    } else {
        value_of(entries.drop_last(), key)
    }
}

/// The parameters of a sequence, by their names. A name has one value: the
/// last that was given for it.
#[derive(Clone, Debug, PartialEq, Eq)]
pub struct Params {
    entries: Vec<Param>,
}

impl View for Params {
    type V = Map<Seq<u8>, Seq<u8>>;

    closed spec fn view(&self) -> Map<Seq<u8>, Seq<u8>> {
        Map::new(
            |key: Seq<u8>| value_of(self.entries@, key).is_some(),
            |key: Seq<u8>| value_of(self.entries@, key).unwrap(),
        )
    }
}

/// The value that `params` hold for `key`, if any.
pub open spec fn param(params: Map<Seq<u8>, Seq<u8>>, key: Seq<u8>) -> Option<Seq<u8>> {
    if params.contains_key(key) {
        Some(params[key])
    } else {
        None
    }
}

impl Params {
    /// No parameters.
    pub fn new() -> (params: Params)
        ensures
            params@ == Map::<Seq<u8>, Seq<u8>>::empty(),
    {
        let params = Params { entries: Vec::new() };
        proof {
            assert(params@ =~= Map::<Seq<u8>, Seq<u8>>::empty());
        }
        params
    }

    /// Gives `key` the value `value`, in the place of the value that it
    /// had.
    pub fn set(&mut self, key: &[u8], value: &[u8])
        ensures
            final(self)@ == old(self)@.insert(key@, value@),
    {
        let ghost before = self.entries@;
        self.entries.push(Param { key: slice_to_vec(key), value: slice_to_vec(value) });
        proof {
            assert(self.entries@.drop_last() =~= before);
            assert(self@ =~= old(self)@.insert(key@, value@)) by {
                assert forall|k: Seq<u8>| #[trigger]
                    self@.contains_key(k) == old(self)@.insert(key@, value@).contains_key(k) by {}
                assert forall|k: Seq<u8>| #[trigger] self@.contains_key(k) implies self@[k]
                    == old(self)@.insert(key@, value@)[k] by {}
            }
        }
    }

    /// The value of `key`, as bytes.
    pub fn bytes(&self, key: &[u8]) -> (value: Option<&[u8]>)
        ensures
            value.is_some() == self@.contains_key(key@),
            value matches Some(bytes) ==> bytes@ == self@[key@],
    {
        let mut i: usize = self.entries.len();
        proof {
            assert(self.entries@.subrange(0, i as int) =~= self.entries@);
        }
        while i > 0
            invariant
                i <= self.entries@.len(),
                value_of(self.entries@, key@) == value_of(self.entries@.subrange(0, i as int), key@),
            decreases i,
        {
            i = i - 1;
            proof {
                let upto = self.entries@.subrange(0, i + 1);
                assert(upto.last() == self.entries@[i as int]);
                assert(upto.drop_last() =~= self.entries@.subrange(0, i as int));
            }
            if same_bytes(self.entries[i].key.as_slice(), key) {
                return Some(self.entries[i].value.as_slice());
            }
        }
        None
    }

    /// Gives `key` the value `value`, in the place of the value that it
    /// had.
    pub fn insert(&mut self, key: &str, value: &str)
        ensures
            final(self)@ == old(self)@.insert(key.spec_bytes(), value.spec_bytes()),
    {
        self.set(key.as_bytes(), value.as_bytes());
    }

    /// The value of `key`, if it has one that is text.
    pub fn get(&self, key: &str) -> (value: Option<&str>)
        ensures
            value.is_some() == (self@.contains_key(key.spec_bytes()) && valid_utf8(
                self@[key.spec_bytes()],
            )),
            value matches Some(text) ==> text.spec_bytes() == self@[key.spec_bytes()],
    {
        match self.bytes(key.as_bytes()) {
            Some(bytes) => text_of(bytes),
            None => None,
        }
    }
}

/// What the sequence gives: the name of a parameter, its value, and the
/// file contents where the value ends with a `:` and the parameter is the
/// last one.
pub struct Parsed {
    pub key: Seq<u8>,
    pub value: Seq<u8>,
    pub contents: Option<Seq<u8>>,
}

/// What the parameter `param` gives, or `None` if it has no `=`. `last` says
/// whether it is the last one, which holds the file contents behind the first
/// `:` of its value.
pub open spec fn parsed(param: Seq<u8>, last: bool) -> Option<Parsed> {
    let separator = first_of(param, 0x3d);
    if separator >= param.len() {
        None
    } else {
        let key = param.subrange(0, separator);
        let value = param.skip(separator + 1);
        let colon = first_of(value, 0x3a);
        if last && colon < value.len() {
            Some(
                Parsed {
                    key,
                    value: value.subrange(0, colon),
                    contents: Some(value.skip(colon + 1)),
                },
            )
        } else {
            Some(Parsed { key, value, contents: None })
        }
    }
}

/// The bytes of each parameter.
pub open spec fn bytes_of(params: Seq<&[u8]>) -> Seq<Seq<u8>> {
    params.map_values(|p: &[u8]| p@)
}

/// The bytes that the first parameter behind the number of the command
/// starts with.
pub open spec fn file_prefix() -> Seq<u8> {
    "File=".spec_bytes()
}

/// `param` starts with `File=`.
pub open spec fn has_file_prefix(param: Seq<u8>) -> bool {
    file_prefix().len() <= param.len() && param.subrange(0, file_prefix().len() as int)
        == file_prefix()
}

/// The parameter at `index`, without the `File=` that the sequence starts
/// with.
pub open spec fn stripped(params: Seq<Seq<u8>>, index: int) -> Seq<u8> {
    if index == 1 {
        params[1].skip(file_prefix().len() as int)
    } else {
        params[index]
    }
}

/// The values of the parameters before `end`, by their names. A parameter
/// whose name or value is no text is left out.
pub open spec fn values_before(params: Seq<Seq<u8>>, end: int) -> Map<Seq<u8>, Seq<u8>>
    decreases end,
{
    if end <= 1 {
        Map::empty()
    } else {
        let before = values_before(params, end - 1);
        match parsed(stripped(params, end - 1), end == params.len()) {
            Some(p) => if valid_utf8(p.key) && valid_utf8(p.value) {
                before.insert(p.key, p.value)
            } else {
                before
            },
            None => before,
        }
    }
}

/// The values of the parameters by their names, and the file contents.
///
/// The first of `params` is the number of the command. The second has to
/// start with `File=`. The last has to have a value with a `:`, behind which
/// the file contents stand.
pub open spec fn param_values_of(params: Seq<Seq<u8>>) -> Option<(Map<Seq<u8>, Seq<u8>>, Seq<u8>)> {
    if params.len() < 2 || !has_file_prefix(params[1]) {
        None
    } else {
        match parsed(stripped(params, params.len() - 1), true) {
            Some(p) => if p.contents.is_some() {
                Some((values_before(params, params.len() as int), p.contents.unwrap()))
            } else {
                None
            },
            None => None,
        }
    }
}

/// Extract parameter values.
///
/// The format defined by iTerm2 starts with a `File=` string, and the file
/// contents are specified after a `:`.
///
/// ```notrust
/// ESC ] 1337 ; File = [arguments] : base-64 encoded file contents ^G
/// ```
///
/// The `File=` string is found in the first parameter, and the file contents
/// are appended in the last one. These parameters are split to get the
/// expected data.
pub fn param_values<'a>(params: &[&'a [u8]]) -> (values: Option<(Params, &'a [u8])>)
    ensures
        values.is_some() == param_values_of(bytes_of(params@)).is_some(),
        values matches Some(found) ==> param_values_of(bytes_of(params@)) == Some(
            (found.0@, found.1@),
        ),
{
    let ghost all = bytes_of(params@);
    let mut map = Params::new();
    let mut contents: Option<&'a [u8]> = None;
    let prefix: &[u8] = "File=".as_bytes();
    let count: usize = params.len();
    let mut index: usize = 1;
    while index < count
        invariant
            1 <= index,
            count == params@.len(),
            all == bytes_of(params@),
            prefix@ == file_prefix(),
            index <= count || (count < 2 && index == 1),
            map@ == values_before(all, index as int),
            index >= 2 ==> has_file_prefix(all[1]),
            index >= 2 && index == count ==> (match parsed(stripped(all, count - 1), true) {
                Some(p) => p.contents.is_some() == contents.is_some() && (contents matches Some(
                    c,
                ) ==> p.contents == Some(c@)),
                None => contents.is_none(),
            }),
            index < count || index == 1 ==> contents.is_none(),
        decreases count - index,
    {
        let mut param: &'a [u8] = params[index];
        proof {
            assert(param@ == all[index as int]);
        }
        // First parameter should start with "File="
        if index == 1 {
            if param.len() < prefix.len() || !same_bytes(
                slice_subrange(param, 0, prefix.len()),
                prefix,
            ) {
                return None;
            }
            param = slice_subrange(param, prefix.len(), param.len());
        }
        let ghost last = index + 1 == count;
        let ghost found = parsed(param@, last);
        proof {
            assert(param@ == stripped(all, index as int));
        }
        let separator: usize = position(param, 0x3d);
        if separator < param.len() {
            let key: &'a [u8] = slice_subrange(param, 0, separator);
            let mut value: &'a [u8] = slice_subrange(param, separator + 1, param.len());
            proof {
                assert(value@ =~= param@.skip(separator + 1));
            }

            // Last parameter has the file contents after the first ':'.
            if index + 1 == count {
                let colon: usize = position(value, 0x3a);
                if colon < value.len() {
                    let rest: &'a [u8] = slice_subrange(value, colon + 1, value.len());
                    proof {
                        assert(rest@ =~= value@.skip(colon + 1));
                    }
                    contents = Some(rest);
                    value = slice_subrange(value, 0, colon);
                }
            }
            proof {
                assert(found.is_some());
                assert(found.unwrap().key == key@);
                assert(found.unwrap().value == value@);
            }
            if text_of(key).is_some() && text_of(value).is_some() {
                map.set(key, value);
            }
        }
        proof {
            assert(map@ == values_before(all, index + 1));
        }
        index = index + 1;
    }
    proof {
        assert(all.len() == count);
        if count >= 2 {
            assert(index == count);
            assert(has_file_prefix(all[1]));
            let last = parsed(stripped(all, count - 1), true);
            assert(map@ == values_before(all, all.len() as int));
            if last.is_some() {
                assert(last.unwrap().contents.is_some() == contents.is_some());
            } else {
                assert(contents.is_none());
            }
        } else {
            assert(contents.is_none());
        }
    }
    match contents {
        Some(contents) => Some((map, contents)),
        None => None,
    }
}

/// The number that the digits `s` stand for, in base ten.
pub open spec fn digits_value(s: Seq<u8>) -> nat
    decreases s.len(),
{
    if s.len() == 0 {
        0
    } else {
        digits_value(s.drop_last()) * 10 + (s.last() - 0x30) as nat
    }
}

/// Every byte of `s` is a digit.
pub open spec fn all_digits(s: Seq<u8>) -> bool {
    forall|i: int| 0 <= i < s.len() ==> is_digit(#[trigger] s[i])
}

/// The number that `s` stands for, if `s` is made of digits, at least one,
/// and the number is not too large.
pub open spec fn number(s: Seq<u8>) -> Option<u32> {
    if s.len() > 0 && all_digits(s) && digits_value(s) <= u32::MAX {
        Some(digits_value(s) as u32)
    } else {
        None
    }
}

/// The size that the value of a parameter asks for, or `None` if it cannot
/// be read.
///
/// - No value, or `auto`: computed from the original graphic size.
/// - `N`: N character cells.
/// - `Npx`: N pixels.
/// - `N%`: N percent of the window's width or height.
pub open spec fn resize_parameter(value: Option<Seq<u8>>) -> Option<ResizeParameter> {
    match value {
        None => Some(ResizeParameter::Auto),
        Some(v) => {
            if v == "auto".spec_bytes() {
                Some(ResizeParameter::Auto)
            } else {
                let split = first_nondigit(v);
                let n = number(v.subrange(0, split));
                let unit = v.skip(split);
                if n.is_none() {
                    None
                } else if split == v.len() {
                    Some(ResizeParameter::Cells(n.unwrap()))
                } else if unit == "%".spec_bytes() {
                    Some(ResizeParameter::WindowPercent(n.unwrap()))
                } else if unit == "px".spec_bytes() {
                    Some(ResizeParameter::Pixels(n.unwrap()))
                } else {
                    None
                }
            }
        },
    }
}

/// The resize that the parameters ask for, or `None` if `width` or `height`
/// cannot be read. The graphic keeps its proportions unless
/// `preserveAspectRatio` is `0`.
pub open spec fn resize_param_of(params: Map<Seq<u8>, Seq<u8>>) -> Option<ResizeCommand> {
    let width = resize_parameter(param(params, "width".spec_bytes()));
    let height = resize_parameter(param(params, "height".spec_bytes()));
    if width.is_none() || height.is_none() {
        None
    } else {
        Some(
            ResizeCommand {
                width: width.unwrap(),
                height: height.unwrap(),
                preserve_aspect_ratio: param(params, "preserveAspectRatio".spec_bytes()) != Some(
                    "0".spec_bytes(),
                ),
            },
        )
    }
}

/// The digits of a number give at least the number that fewer of them give.
proof fn lemma_digits_grow(s: Seq<u8>, k: int)
    requires
        all_digits(s),
        0 <= k <= s.len(),
    ensures
        digits_value(s.subrange(0, k)) <= digits_value(s),
    decreases s.len() - k,
{
    if k < s.len() {
        let longer = s.subrange(0, k + 1);
        assert(longer.drop_last() =~= s.subrange(0, k));
        assert(is_digit(s[k]));
        lemma_digits_grow(s, k + 1);
    } else {
        assert(s.subrange(0, k) =~= s);
    }
}

/// The number that the bytes stand for.
fn parse_number(digits: &[u8]) -> (n: Option<u32>)
    ensures
        n == number(digits@),
{
    if digits.len() == 0 {
        return None;
    }
    let mut value: u64 = 0;
    let mut i: usize = 0;
    while i < digits.len()
        invariant
            i <= digits@.len(),
            all_digits(digits@.subrange(0, i as int)),
            value == digits_value(digits@.subrange(0, i as int)),
            value <= u32::MAX,
        decreases digits@.len() - i,
    {
        let byte: u8 = digits[i];
        let ghost upto = digits@.subrange(0, i + 1);
        proof {
            assert(upto.drop_last() =~= digits@.subrange(0, i as int));
            assert(upto.last() == byte);
        }
        if byte < 0x30 || byte > 0x39 {
            proof {
                assert(!is_digit(digits@[i as int]));
            }
            return None;
        }
        value = value * 10 + (byte - 0x30) as u64;
        proof {
            assert forall|j: int| 0 <= j < upto.len() implies is_digit(#[trigger] upto[j]) by {
                if j < i {
                    assert(upto[j] == digits@.subrange(0, i as int)[j]);
                }
            }
        }
        if value > u32::MAX as u64 {
            proof {
                if all_digits(digits@) {
                    lemma_digits_grow(digits@, i + 1);
                }
            }
            return None;
        }
        i = i + 1;
    }
    proof {
        assert(digits@.subrange(0, i as int) =~= digits@);
    }
    Some(value as u32)
}

/// The size that the value of a parameter asks for.
fn parse_resize(value: Option<&[u8]>) -> (parameter: Option<ResizeParameter>)
    ensures
        parameter == resize_parameter(
            match value {
                Some(v) => Some(v@),
                None => None,
            },
        ),
{
    let value: &[u8] = match value {
        None => {
            return Some(ResizeParameter::Auto);
        },
        Some(value) => value,
    };
    if same_bytes(value, "auto".as_bytes()) {
        return Some(ResizeParameter::Auto);
    }
    // Split the value after the first non-digit byte.
    // If there is no unit, parse as number of cells.
    let split: usize = position_nondigit(value);
    let number: u32 = match parse_number(slice_subrange(value, 0, split)) {
        Some(number) => number,
        None => {
            return None;
        },
    };
    let unit: &[u8] = slice_subrange(value, split, value.len());
    proof {
        assert(unit@ =~= value@.skip(split as int));
    }
    if split == value.len() {
        Some(ResizeParameter::Cells(number))
    } else if same_bytes(unit, "%".as_bytes()) {
        Some(ResizeParameter::WindowPercent(number))
    } else if same_bytes(unit, "px".as_bytes()) {
        Some(ResizeParameter::Pixels(number))
    } else {
        None
    }
}

/// Compute the resize operation from the OSC parameters.
///
/// Accepted formats:
///
/// - N: N character cells.
/// - Npx: N pixels.
/// - N%: N percent of the window's width or height.
/// - auto: Computed from the original graphic size.
pub fn resize_param(params: &Params) -> (resize: Option<ResizeCommand>)
    ensures
        resize == resize_param_of(params@),
{
    let width: ResizeParameter = match parse_resize(params.bytes("width".as_bytes())) {
        Some(width) => width,
        None => {
            return None;
        },
    };
    let height: ResizeParameter = match parse_resize(params.bytes("height".as_bytes())) {
        Some(height) => height,
        None => {
            return None;
        },
    };
    let preserve_aspect_ratio: bool = match params.bytes("preserveAspectRatio".as_bytes()) {
        Some(value) => !same_bytes(value, "0".as_bytes()),
        None => true,
    };
    Some(ResizeCommand { width, height, preserve_aspect_ratio })
}

/// The values of the parameters by their names and the file contents, as
/// they are encoded, of a sequence that asks for an inline graphic: its
/// parameter `inline` is `1`.
pub open spec fn inline_values_of(params: Seq<Seq<u8>>) -> Option<
    (Map<Seq<u8>, Seq<u8>>, Seq<u8>),
> {
    let values = param_values_of(params);
    if values.is_some() && param(values.unwrap().0, "inline".spec_bytes()) == Some(
        "1".spec_bytes(),
    ) {
        values
    } else {
        None
    }
}

/// The parameters hold the file of an inline graphic: the parameter `inline`
/// is `1`, and the file contents are encoded in base64.
pub open spec fn holds_file(params: Seq<Seq<u8>>) -> bool {
    let values = param_values_of(params);
    &&& values.is_some()
    &&& param(values.unwrap().0, "inline".spec_bytes()) == Some("1".spec_bytes())
    &&& base64_decoded(values.unwrap().1).is_some()
}

/// The parameters of a sequence that asks for an inline graphic by their
/// names, and the file contents as they are encoded.
///
/// There are none unless the parameter `inline` is `1`.
pub fn inline_params<'a>(params: &[&'a [u8]]) -> (values: Option<(Params, &'a [u8])>)
    ensures
        values.is_some() == inline_values_of(bytes_of(params@)).is_some(),
        values matches Some(found) ==> inline_values_of(bytes_of(params@)) == Some(
            (found.0@, found.1@),
        ),
{
    let (params, contents) = match param_values(params) {
        Some(values) => values,
        None => {
            return None;
        },
    };
    let inline: bool = match params.bytes("inline".as_bytes()) {
        Some(value) => same_bytes(value, "1".as_bytes()),
        None => false,
    };
    if inline {
        Some((params, contents))
    } else {
        None
    }
}

/// The graphic that is made of `image` for a sequence with the parameters
/// `values`: at the top left of the grid, it asks for the size that the
/// parameters `width` and `height` give, if they can be read.
pub open spec fn graphic_with(values: Map<Seq<u8>, Seq<u8>>, image: image::DynamicImage)
    -> GraphicDataView {
    GraphicDataView { resize: resize_param_of(values), ..image_view(GraphicId(0), image) }
}

/// The graphic that the parameters give when their file holds `image`: the
/// graphic that is made of the image, which asks for the size that the
/// parameters `width` and `height` give, if they can be read.
pub open spec fn parsed_graphic(params: Seq<Seq<u8>>, image: image::DynamicImage)
    -> GraphicDataView {
    graphic_with(param_values_of(params).unwrap().0, image)
}

/// The parameters of an inline graphic by their names, and its file: the file
/// contents, decoded from base64.
///
/// There is no file unless the parameter `inline` is `1`, nor where the file
/// contents are no base64.
pub fn inline_file(params: &[&[u8]]) -> (file: Option<(Params, Vec<u8>)>)
    ensures
        file.is_some() == holds_file(bytes_of(params@)),
        file matches Some(found) ==> {
            let values = param_values_of(bytes_of(params@)).unwrap();
            &&& found.0@ == values.0
            &&& Some(found.1@) == base64_decoded(values.1)
        },
{
    let (params, contents) = match inline_params(params) {
        Some(values) => values,
        None => {
            return None;
        },
    };
    match decode_base64(contents) {
        Ok(buffer) => Some((params, buffer)),
        Err(_) => None,
    }
}

/// The graphic of an inline file that holds `image`, for a sequence with the
/// parameters `params`.
///
/// The graphic is at the top left of the grid, and asks for the size that the
/// parameters `width` and `height` give, if they can be read.
pub fn graphic_of(params: &Params, image: image::DynamicImage) -> (graphic: GraphicData)
    ensures
        graphic@ == graphic_with(params@, image),
        graphic@.wf(),
        graphic.width <= u32::MAX,
        graphic.height <= u32::MAX,
{
    let mut graphics = GraphicData::from_dynamic_image(GraphicId(0), image);
    graphics.resize = resize_param(params);
    graphics
}

/// Parse the OSC 1337 parameters to add a graphic to the grid.
///
/// The graphic is made of the file contents, which are encoded in base64 and
/// hold an image in one of the formats that the `image` crate reads. There is
/// no graphic unless the parameter `inline` is `1`, nor where the file
/// contents cannot be decoded.
///
/// The graphic is at the top left of the grid, and asks for the size that the
/// parameters `width` and `height` give, if they can be read.
pub fn parse(params: &[&[u8]]) -> (graphic: Option<GraphicData>)
    ensures
        graphic.is_some() ==> holds_file(bytes_of(params@)),
        graphic.is_some() ==> exists|image: image::DynamicImage|
            graphic.unwrap()@ == #[trigger] parsed_graphic(bytes_of(params@), image),
        graphic.is_some() ==> {
            &&& graphic.unwrap()@.wf()
            &&& graphic.unwrap().width <= u32::MAX
            &&& graphic.unwrap().height <= u32::MAX
        },
{
    let ghost all = bytes_of(params@);
    let (params, buffer) = match inline_file(params) {
        Some(file) => file,
        None => {
            return None;
        },
    };
    let image = match image::load_from_memory(buffer.as_slice()) {
        Ok(image) => image,
        Err(_) => {
            return None;
        },
    };
    let ghost decoded = image;
    let graphic = graphic_of(&params, image);
    proof {
        assert(graphic@ == parsed_graphic(all, decoded));
    }
    Some(graphic)
}

} // verus!
