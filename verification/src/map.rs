//! The address map of a device: which parameters it has, where they are, and
//! how their values are written.

use crate::calendar;
use crate::calendar::is_iso_date;
use crate::hex;
use crate::hex::{parse_hex_field, spaced_hex};
use crate::sysex;
use crate::sysex::{find_wide, same_bytes, Address, Codec, Incoming};
use crate::text;
use crate::text::{
    append_texts, chars_of, dec_text, is_white_space, join, no_texts, prefixed_hex_text, push_text,
    quote, same,
};
use std::collections::BTreeMap;
use vstd::prelude::*;
use vstd::slice::slice_to_vec;
use vstd::std_specs::btree::*;

verus! {

/// The schema that a map declares.
pub const SCHEMA: &'static str = "roland-sysex-map/v0";

/// The most bytes that a parameter can have.
pub const MAX_SIZE: u8 = 16;

/// The parameters of a device.
#[derive(Debug)]
pub struct AddressMap {
    pub schema: String,
    pub notice: Option<String>,
    pub device: Device,
    pub params: Vec<Param>,
    pub examples: Vec<Example>,
}

/// How a device identifies itself.
#[derive(Debug)]
pub struct Device {
    pub name: String,
    pub identity_family: Vec<u8>,
    pub identity_member: Vec<u8>,
    pub model_id: Vec<u8>,
    pub device_id_default: u8,
    pub checksum: ChecksumKind,
    pub corroborations: Vec<String>,
}

/// How the frames of a device are checked.
#[derive(Debug, Clone, Copy, PartialEq, Eq)]
pub enum ChecksumKind {
    Roland7,
}

/// One parameter of a device.
#[derive(Debug)]
pub struct Param {
    pub name: String,
    pub read_address: Option<Address>,
    pub write_address: Option<Address>,
    pub size: u8,
    pub encoding: Encoding,
    pub labels: BTreeMap<u32, String>,
    pub range: Option<Range>,
    pub verify_with: Option<String>,
    pub source: Source,
    pub source_ref: String,
    pub corroborations: Vec<String>,
    pub verified: Vec<Verification>,
    pub notes: Option<String>,
}

/// The values that a parameter takes, both ends included.
#[derive(Debug, Clone, Copy)]
pub struct Range {
    pub min: u32,
    pub max: u32,
}

/// Where a parameter is known from.
#[derive(Debug, Clone, Copy, PartialEq, Eq)]
pub enum Source {
    OfficialDoc,
    AppRe,
    PanelCapture,
}

/// One confirmation of a parameter on a device.
#[derive(Debug)]
pub struct Verification {
    pub firmware: String,
    pub date: String,
    pub method: Method,
}

/// How a parameter was confirmed.
#[derive(Debug, Clone, Copy, PartialEq, Eq)]
pub enum Method {
    PanelCapture,
    Rq1Roundtrip,
    WriteReadback,
}

/// A frame that the map vouches for.
#[derive(Debug)]
pub struct Example {
    pub frame: String,
    pub note: String,
}

/// How a value is written in bytes.
#[derive(Debug, Clone, Copy, PartialEq, Eq)]
pub enum Encoding {
    U7,
    U14,
    Raw,
}

/// A value of a parameter.
#[derive(Debug, Clone, PartialEq, Eq)]
pub enum Value {
    Num(u32),
    Raw(Vec<u8>),
}

/// The contents of a value.
pub enum ValueView {
    Num(u32),
    Raw(Seq<u8>),
}

impl View for Value {
    type V = ValueView;

    open spec fn view(&self) -> ValueView {
        match *self {
            Value::Num(n) => ValueView::Num(n),
            Value::Raw(bytes) => ValueView::Raw(bytes@),
        }
    }
}

/// Whether two values are the same.
pub fn same_value(a: &Value, b: &Value) -> (r: bool)
    ensures
        r == (a@ == b@),
{
    match (a, b) {
        (Value::Num(x), Value::Num(y)) => *x == *y,
        (Value::Raw(x), Value::Raw(y)) => same_bytes(x.as_slice(), y.as_slice()),
        _ => false,
    }
}

/// The contents of a value that may be missing.
pub open spec fn value_option(v: Option<Value>) -> Option<ValueView> {
    match v {
        Some(v) => Some(v@),
        None => None,
    }
}

/// The contents of bytes that may be missing.
pub open spec fn bytes_option(v: Option<Vec<u8>>) -> Option<Seq<u8>> {
    match v {
        Some(v) => Some(v@),
        None => None,
    }
}

/// The contents of a text that may be missing.
pub open spec fn text_option(v: Option<&str>) -> Option<Seq<char>> {
    match v {
        Some(v) => Some(v@),
        None => None,
    }
}

/// The contents of an address that may be missing.
pub open spec fn address_option(a: Option<Address>) -> Option<Seq<u8>> {
    match a {
        Some(a) => Some(a@),
        None => None,
    }
}

// ---------------------------------------------------------------------------
// Names
// ---------------------------------------------------------------------------

impl ChecksumKind {
    /// The name that the map's data uses.
    pub fn as_str(self) -> (r: &'static str)
        ensures
            r@ == "roland7"@,
    {
        "roland7"
    }
}

impl Source {
    /// The name that the map's data uses.
    pub open spec fn name(self) -> Seq<char> {
        match self {
            Source::OfficialDoc => "official_doc"@,
            Source::AppRe => "app_re"@,
            Source::PanelCapture => "panel_capture"@,
        }
    }

    /// The name that the map's data uses.
    pub fn as_str(self) -> (r: &'static str)
        ensures
            r@ == self.name(),
    {
        match self {
            Source::OfficialDoc => "official_doc",
            Source::AppRe => "app_re",
            Source::PanelCapture => "panel_capture",
        }
    }
}

impl Method {
    /// The name that the map's data uses.
    pub open spec fn name(self) -> Seq<char> {
        match self {
            Method::PanelCapture => "panel_capture"@,
            Method::Rq1Roundtrip => "rq1_roundtrip"@,
            Method::WriteReadback => "write_readback"@,
        }
    }

    /// The name that the map's data uses.
    pub fn as_str(self) -> (r: &'static str)
        ensures
            r@ == self.name(),
    {
        match self {
            Method::PanelCapture => "panel_capture",
            Method::Rq1Roundtrip => "rq1_roundtrip",
            Method::WriteReadback => "write_readback",
        }
    }
}

// ---------------------------------------------------------------------------
// Encodings
// ---------------------------------------------------------------------------

impl Encoding {
    /// The name that the map's data uses.
    pub open spec fn name(self) -> Seq<char> {
        match self {
            Encoding::U7 => "u7"@,
            Encoding::U14 => "u14"@,
            Encoding::Raw => "raw"@,
        }
    }

    /// The number of bytes, where the encoding fixes it.
    pub open spec fn fixed_size(self) -> Option<u8> {
        match self {
            Encoding::U7 => Some(1u8),
            Encoding::U14 => Some(2u8),
            Encoding::Raw => None,
        }
    }

    /// The largest number, where the encoding holds numbers.
    pub open spec fn largest(self) -> Option<u32> {
        match self {
            Encoding::U7 => Some(127u32),
            Encoding::U14 => Some(16383u32),
            Encoding::Raw => None,
        }
    }

    /// The value that `bytes` write.
    pub open spec fn decoded(self, bytes: Seq<u8>) -> Option<ValueView> {
        match self {
            Encoding::U7 => if bytes.len() == 1 {
                Some(ValueView::Num(bytes[0] as u32))
            } else {
                None
            },
            Encoding::U14 => if bytes.len() == 2 {
                Some(ValueView::Num((bytes[0] * 128 + bytes[1]) as u32))
            } else {
                None
            },
            Encoding::Raw => Some(ValueView::Raw(bytes)),
        }
    }

    /// The data bytes that write `value`.
    pub open spec fn encoded(self, value: ValueView) -> Option<Seq<u8>> {
        match (self, value) {
            (Encoding::U7, ValueView::Num(v)) => if v <= 127 {
                Some(seq![v as u8])
            } else {
                None
            },
            (Encoding::U14, ValueView::Num(v)) => if v <= 16383 {
                Some(seq![(v / 128) as u8, (v % 128) as u8])
            } else {
                None
            },
            (Encoding::Raw, ValueView::Raw(bytes)) => if sysex::all_seven_bit(bytes) {
                Some(bytes)
            } else {
                None
            },
            _ => None,
        }
    }

    /// The name that the map's data uses.
    pub fn to_text(&self) -> (r: &'static str)
        ensures
            r@ == self.name(),
    {
        match self {
            Encoding::U7 => "u7",
            Encoding::U14 => "u14",
            Encoding::Raw => "raw",
        }
    }

    /// The number of bytes, where the encoding fixes it.
    pub fn size(self) -> (r: Option<u8>)
        ensures
            r == self.fixed_size(),
    {
        match self {
            Encoding::U7 => Some(1),
            Encoding::U14 => Some(2),
            Encoding::Raw => None,
        }
    }

    /// The largest number, where the encoding holds numbers.
    pub fn ceiling(self) -> (r: Option<u32>)
        ensures
            r == self.largest(),
    {
        match self {
            Encoding::U7 => Some(127),
            Encoding::U14 => Some(16383),
            Encoding::Raw => None,
        }
    }

    /// The value that `bytes` write.
    pub fn decode(self, bytes: &[u8]) -> (r: Option<Value>)
        ensures
            value_option(r) == self.decoded(bytes@),
    {
        match self {
            Encoding::U7 => if bytes.len() == 1 {
                Some(Value::Num(bytes[0] as u32))
            } else {
                None
            },
            Encoding::U14 => if bytes.len() == 2 {
                Some(Value::Num(bytes[0] as u32 * 128 + bytes[1] as u32))
            } else {
                None
            },
            Encoding::Raw => Some(Value::Raw(slice_to_vec(bytes))),
        }
    }

    /// The data bytes that write `value`.
    pub fn encode(self, value: &Value) -> (r: Option<Vec<u8>>)
        ensures
            bytes_option(r) == self.encoded(value@),
    {
        match (self, value) {
            (Encoding::U7, Value::Num(v)) => {
                if *v <= 127 {
                    let out: Vec<u8> = vec![*v as u8];
                    assert(out@ =~= seq![*v as u8]);
                    Some(out)
                } else {
                    None
                }
            },
            (Encoding::U14, Value::Num(v)) => {
                if *v <= 16383 {
                    let out: Vec<u8> = vec![(*v / 128) as u8, (*v % 128) as u8];
                    assert(out@ =~= seq![(*v / 128) as u8, (*v % 128) as u8]);
                    Some(out)
                } else {
                    None
                }
            },
            (Encoding::Raw, Value::Raw(bytes)) => {
                proof {
                    sysex::lemma_first_wide(bytes@);
                }
                if find_wide(bytes.as_slice()).is_none() {
                    Some(slice_to_vec(bytes.as_slice()))
                } else {
                    None
                }
            },
            _ => None,
        }
    }
}

// ---------------------------------------------------------------------------
// Labels
// ---------------------------------------------------------------------------

/// Whether `list` holds the labels in the order of their values, each once.
pub open spec fn is_listing(labels: Map<u32, String>, list: Seq<(u32, Seq<char>)>) -> bool {
    &&& forall|i: int, j: int| 0 <= i < j < list.len() ==> #[trigger] list[i].0 < #[trigger] list[j].0
    &&& forall|i: int|
        0 <= i < list.len() ==> labels.contains_key((#[trigger] list[i]).0) && labels[list[i].0]@
            == list[i].1
    &&& forall|k: u32| #[trigger]
        labels.contains_key(k) ==> exists|i: int| 0 <= i < list.len() && (#[trigger] list[i]).0 == k
}

/// The labels in the order of their values.
pub open spec fn listing(labels: Map<u32, String>) -> Seq<(u32, Seq<char>)> {
    choose|list: Seq<(u32, Seq<char>)>| is_listing(labels, list)
}

spec fn listing_below(labels: Map<u32, String>, n: nat) -> Seq<(u32, Seq<char>)>
    decreases n,
{
    if n == 0 {
        Seq::empty()
    } else {
        let before = listing_below(labels, (n - 1) as nat);
        let k = (n - 1) as u32;
        if labels.contains_key(k) {
            before.push((k, labels[k]@))
        } else {
            before
        }
    }
}

proof fn lemma_listing_below(labels: Map<u32, String>, n: nat)
    requires
        n <= 0x1_0000_0000,
    ensures
        ({
            let list = listing_below(labels, n);
            &&& forall|i: int, j: int|
                0 <= i < j < list.len() ==> #[trigger] list[i].0 < #[trigger] list[j].0
            &&& forall|i: int|
                0 <= i < list.len() ==> labels.contains_key((#[trigger] list[i]).0)
                    && labels[list[i].0]@ == list[i].1 && list[i].0 < n
            &&& forall|k: u32| #[trigger]
                labels.contains_key(k) && k < n ==> exists|i: int|
                    0 <= i < list.len() && (#[trigger] list[i]).0 == k
        }),
    decreases n,
{
    if n > 0 {
        lemma_listing_below(labels, (n - 1) as nat);
        let before = listing_below(labels, (n - 1) as nat);
        let list = listing_below(labels, n);
        let last = (n - 1) as u32;
        assert forall|k: u32| #[trigger] labels.contains_key(k) && k < n implies exists|i: int|
            0 <= i < list.len() && (#[trigger] list[i]).0 == k by {
            if k == last {
                assert(list[list.len() - 1].0 == k);
            } else {
                let i = choose|i: int| 0 <= i < before.len() && (#[trigger] before[i]).0 == k;
                assert(list[i].0 == k);
            }
        }
    }
}

/// The listing is one.
pub proof fn lemma_listing(labels: Map<u32, String>)
    ensures
        is_listing(labels, listing(labels)),
{
    lemma_listing_below(labels, 0x1_0000_0000);
    assert(is_listing(labels, listing_below(labels, 0x1_0000_0000)));
}

/// There is only one listing.
pub proof fn lemma_listing_unique(labels: Map<u32, String>, list: Seq<(u32, Seq<char>)>)
    requires
        is_listing(labels, list),
    ensures
        list == listing(labels),
{
    let other = listing(labels);
    lemma_listing(labels);
    lemma_listings_agree(labels, list, other, if list.len() < other.len() {
        list.len()
    } else {
        other.len()
    });
    if list.len() < other.len() {
        let k = other[list.len() as int].0;
        assert(labels.contains_key(k));
        let i = choose|i: int| 0 <= i < list.len() && (#[trigger] list[i]).0 == k;
        assert(other[i].0 == k);
        assert(false);
    }
    if other.len() < list.len() {
        let k = list[other.len() as int].0;
        assert(labels.contains_key(k));
        let i = choose|i: int| 0 <= i < other.len() && (#[trigger] other[i]).0 == k;
        assert(list[i].0 == k);
        assert(false);
    }
    assert(list =~= other);
}

proof fn lemma_listings_agree(
    labels: Map<u32, String>,
    a: Seq<(u32, Seq<char>)>,
    b: Seq<(u32, Seq<char>)>,
    n: nat,
)
    requires
        is_listing(labels, a),
        is_listing(labels, b),
        n <= a.len(),
        n <= b.len(),
    ensures
        forall|i: int| 0 <= i < n ==> #[trigger] a[i] == b[i],
    decreases n,
{
    if n > 0 {
        let m = n - 1;
        lemma_listings_agree(labels, a, b, m as nat);
        let (x, y) = (a[m].0, b[m].0);
        assert(labels.contains_key(x) && labels.contains_key(y));
        let i = choose|i: int| 0 <= i < b.len() && (#[trigger] b[i]).0 == x;
        let j = choose|j: int| 0 <= j < a.len() && (#[trigger] a[j]).0 == y;
        if i < m {
            assert(a[i].0 == x);
        }
        if j < m {
            assert(b[j].0 == y);
        }
        assert(x == y);
    }
}

/// The contents of a list of labels.
pub open spec fn entries_view(list: Seq<(u32, &String)>) -> Seq<(u32, Seq<char>)> {
    list.map_values(|e: (u32, &String)| (e.0, e.1@))
}

/// The labels in the order of their values.
fn entries(labels: &BTreeMap<u32, String>) -> (r: Vec<(u32, &String)>)
    ensures
        entries_view(r@) == listing(labels@),
{
    broadcast use vstd::laws_cmp::group_laws_cmp;

    let mut out: Vec<(u32, &String)> = Vec::new();
    let ghost all = vstd::std_specs::iter::IteratorSpec::remaining(&spec_btree_map_iter(labels));
    for e in it: labels.iter()
        invariant
            it.seq() == all,
            increasing_seq(all.map_values(|kv: (&u32, &String)| *kv.0)),
            out@.len() == it.index(),
            forall|i: int| 0 <= i < out@.len() ==> (&(#[trigger] out@[i]).0, out@[i].1) == all[i],
    {
        out.push((*e.0, e.1));
    }
    proof {
        let list = entries_view(out@);
        let keys = all.map_values(|kv: (&u32, &String)| *kv.0);
        assert forall|i: int, j: int| 0 <= i < j < list.len() implies #[trigger] list[i].0
            < #[trigger] list[j].0 by {
            assert(vstd::std_specs::cmp::OrdSpec::cmp_spec(&keys[i], &keys[j]) is Less);
        }
        assert forall|k: u32| #[trigger] labels@.contains_key(k) implies exists|i: int|
            0 <= i < list.len() && (#[trigger] list[i]).0 == k by {
            let pair = (&k, &labels@[k]);
            assert(all.contains(pair));
            let i = choose|i: int| 0 <= i < all.len() && all[i] == pair;
            assert(list[i].0 == k);
        }
        lemma_listing_unique(labels@, list);
    }
    out
}

/// The first value in the list that is outside `min..=max`.
pub open spec fn first_outside(list: Seq<(u32, Seq<char>)>, min: u32, max: u32) -> Option<u32>
    decreases list.len(),
{
    if list.len() == 0 {
        None
    } else if first_outside(list.drop_last(), min, max) is Some {
        first_outside(list.drop_last(), min, max)
    } else if list.last().0 < min || list.last().0 > max {
        Some(list.last().0)
    } else {
        None
    }
}

/// The first value in the list with this label.
pub open spec fn first_labelled(list: Seq<(u32, Seq<char>)>, label: Seq<char>) -> Option<u32>
    decreases list.len(),
{
    if list.len() == 0 {
        None
    } else if first_labelled(list.drop_last(), label) is Some {
        first_labelled(list.drop_last(), label)
    } else if list.last().1 == label {
        Some(list.last().0)
    } else {
        None
    }
}

/// The first label in the list that an earlier value has too.
pub open spec fn first_repeated(list: Seq<(u32, Seq<char>)>) -> Option<Seq<char>>
    decreases list.len(),
{
    if list.len() == 0 {
        None
    } else if first_repeated(list.drop_last()) is Some {
        first_repeated(list.drop_last())
    } else if exists|i: int| 0 <= i < list.len() - 1 && (#[trigger] list[i]).1 == list.last().1 {
        Some(list.last().1)
    } else {
        None
    }
}

/// The labels with their values, as a list in words.
pub open spec fn labels_text(labels: Map<u32, String>) -> Seq<char> {
    text::joined(
        listing(labels).map_values(|e: (u32, Seq<char>)| e.1 + "("@ + text::dec(e.0 as nat) + ")"@),
        ", "@,
    )
}

fn find_outside(list: &Vec<(u32, &String)>, min: u32, max: u32) -> (r: Option<u32>)
    ensures
        r == first_outside(entries_view(list@), min, max),
{
    let ghost all = entries_view(list@);
    let mut found: Option<u32> = None;
    let mut i: usize = 0;
    while i < list.len()
        invariant
            i <= list.len(),
            all == entries_view(list@),
            found == first_outside(all.take(i as int), min, max),
        decreases list.len() - i,
    {
        assert(all.take(i + 1).drop_last() =~= all.take(i as int));
        let k: u32 = list[i].0;
        if found.is_none() && (k < min || k > max) {
            found = Some(k);
        }
        i = i + 1;
    }
    assert(all.take(all.len() as int) =~= all);
    found
}

fn find_repeated<'a>(list: &Vec<(u32, &'a String)>) -> (r: Option<&'a String>)
    ensures
        match r {
            Some(label) => first_repeated(entries_view(list@)) == Some(label@),
            None => first_repeated(entries_view(list@)) is None,
        },
{
    let ghost all = entries_view(list@);
    let mut found: Option<&'a String> = None;
    let mut i: usize = 0;
    while i < list.len()
        invariant
            i <= list.len(),
            all == entries_view(list@),
            match found {
                Some(label) => first_repeated(all.take(i as int)) == Some(label@),
                None => first_repeated(all.take(i as int)) is None,
            },
        decreases list.len() - i,
    {
        let ghost here = all.take(i + 1);
        assert(here.drop_last() =~= all.take(i as int));
        let label = list[i].1;
        if found.is_none() {
            let mut seen = false;
            let mut j: usize = 0;
            while j < i
                invariant
                    j <= i < list.len(),
                    all == entries_view(list@),
                    here == all.take(i + 1),
                    label == list@[i as int].1,
                    seen == exists|k: int| 0 <= k < j && (#[trigger] here[k]).1 == here.last().1,
                decreases i - j,
            {
                if same(list[j].1.as_str(), label.as_str()) {
                    assert(here[j as int].1 == here.last().1);
                    seen = true;
                }
                j = j + 1;
            }
            if seen {
                found = Some(label);
            }
        }
        i = i + 1;
    }
    assert(all.take(all.len() as int) =~= all);
    found
}

// ---------------------------------------------------------------------------
// Parameters
// ---------------------------------------------------------------------------

impl Param {
    /// The value that `bytes` write, where they are as many as the parameter has.
    pub open spec fn decoded(self, bytes: Seq<u8>) -> Option<ValueView> {
        if bytes.len() == self.size {
            self.encoding.decoded(bytes)
        } else {
            None
        }
    }

    /// The bytes that write `value`, where they are as many as the parameter has.
    pub open spec fn encoded(self, value: ValueView) -> Option<Seq<u8>> {
        match self.encoding.encoded(value) {
            Some(bytes) => if bytes.len() == self.size {
                Some(bytes)
            } else {
                None
            },
            None => None,
        }
    }

    /// The label of a value.
    pub open spec fn label_of(self, value: ValueView) -> Option<Seq<char>> {
        match value {
            ValueView::Num(n) => if self.labels@.contains_key(n) {
                Some(self.labels@[n]@)
            } else {
                None
            },
            ValueView::Raw(_) => None,
        }
    }

    /// The value in words: its label with the number, the number, or the bytes.
    pub open spec fn shown(self, value: ValueView) -> Seq<char> {
        match value {
            ValueView::Num(n) => match self.label_of(value) {
                Some(label) => label + " ("@ + text::dec(n as nat) + ")"@,
                None => text::dec(n as nat),
            },
            ValueView::Raw(bytes) => hex::spaced_hex_of(bytes),
        }
    }

    /// Why the parameter does not take `value`; none where it does.
    pub open spec fn objection(self, value: ValueView) -> Option<Seq<char>> {
        let wide = match value {
            ValueView::Raw(bytes) => sysex::first_wide(bytes),
            ValueView::Num(_) => None,
        };
        let strange = match value {
            ValueView::Num(n) => match self.range {
                Some(range) => if n < range.min || n > range.max {
                    Some(
                        "outside "@ + text::dec(range.min as nat) + "..="@ + text::dec(
                            range.max as nat,
                        ),
                    )
                } else {
                    None
                },
                None => if !self.labels@.is_empty() && !self.labels@.contains_key(n) {
                    Some("not one of "@ + labels_text(self.labels@))
                } else {
                    None
                },
            },
            ValueView::Raw(_) => None,
        };
        match wide {
            Some(b) => Some("byte "@ + text::prefixed_hex(b) + " is not 7-bit"@),
            None => if strange is Some {
                strange
            } else if self.encoded(value) is None {
                Some(
                    "does not fit "@ + self.encoding.name() + " in "@ + text::dec(self.size as nat)
                        + " byte(s)"@,
                )
            } else {
                None
            },
        }
    }

    /// The value that `bytes` write, where they are as many as the parameter has.
    pub fn decode(&self, bytes: &[u8]) -> (r: Option<Value>)
        ensures
            value_option(r) == self.decoded(bytes@),
    {
        if bytes.len() == self.size as usize {
            self.encoding.decode(bytes)
        } else {
            None
        }
    }

    /// The bytes that write `value`, where they are as many as the parameter has.
    pub fn encode(&self, value: &Value) -> (r: Option<Vec<u8>>)
        ensures
            bytes_option(r) == self.encoded(value@),
    {
        match self.encoding.encode(value) {
            Some(bytes) => if bytes.len() == self.size as usize {
                Some(bytes)
            } else {
                None
            },
            None => None,
        }
    }

    /// The label of a value.
    pub fn label(&self, value: &Value) -> (r: Option<&str>)
        ensures
            text_option(r) == self.label_of(value@),
    {
        broadcast use vstd::laws_cmp::group_laws_cmp;

        match value {
            Value::Num(n) => match self.labels.get(n) {
                Some(label) => Some(label.as_str()),
                None => None,
            },
            Value::Raw(_) => None,
        }
    }

    /// The value in words.
    pub fn show(&self, value: &Value) -> (r: String)
        ensures
            r@ == self.shown(value@),
    {
        match value {
            Value::Num(n) => match self.label(value) {
                Some(label) => label.to_owned().concat(" (").concat(
                    dec_text(*n as u64).as_str(),
                ).concat(")"),
                None => dec_text(*n as u64),
            },
            Value::Raw(bytes) => spaced_hex(bytes.as_slice()),
        }
    }

    fn is_label(&self, n: &u32) -> (r: bool)
        ensures
            r == self.labels@.contains_key(*n),
    {
        broadcast use vstd::laws_cmp::group_laws_cmp;

        self.labels.contains_key(n)
    }

    /// Whether the parameter takes `value`, and if not, why.
    pub fn accepts(&self, value: &Value) -> (r: Result<(), String>)
        ensures
            match r {
                Ok(_) => self.objection(value@) is None,
                Err(e) => self.objection(value@) == Some(e@),
            },
    {
        if let Value::Raw(bytes) = value {
            if let Some(b) = find_wide(bytes.as_slice()) {
                return Err(
                    "byte ".to_owned().concat(prefixed_hex_text(b).as_str()).concat(
                        " is not 7-bit",
                    ),
                );
            }
        }
        if let Value::Num(n) = value {
            if let Some(range) = self.range {
                if *n < range.min || *n > range.max {
                    return Err(
                        "outside ".to_owned().concat(dec_text(range.min as u64).as_str()).concat(
                            "..=",
                        ).concat(dec_text(range.max as u64).as_str()),
                    );
                }
            } else if !self.labels.is_empty() && !self.is_label(n) {
                return Err("not one of ".to_owned().concat(self.label_list().as_str()));
            }
        }
        if self.encode(value).is_none() {
            return Err(
                "does not fit ".to_owned().concat(self.encoding.to_text()).concat(" in ").concat(
                    dec_text(self.size as u64).as_str(),
                ).concat(" byte(s)"),
            );
        }
        Ok(())
    }

    /// The first value with this label.
    pub fn value_of(&self, label: &str) -> (r: Option<u32>)
        ensures
            r == first_labelled(listing(self.labels@), label@),
    {
        let list = entries(&self.labels);
        let ghost all = entries_view(list@);
        let mut found: Option<u32> = None;
        let mut i: usize = 0;
        while i < list.len()
            invariant
                i <= list.len(),
                all == entries_view(list@),
                found == first_labelled(all.take(i as int), label@),
            decreases list.len() - i,
        {
            assert(all.take(i + 1).drop_last() =~= all.take(i as int));
            if found.is_none() && same(list[i].1.as_str(), label) {
                found = Some(list[i].0);
            }
            i = i + 1;
        }
        assert(all.take(all.len() as int) =~= all);
        found
    }

    /// The labels with their values, as a list in words.
    pub fn label_list(&self) -> (r: String)
        ensures
            r@ == labels_text(self.labels@),
    {
        let list = entries(&self.labels);
        let ghost words = listing(self.labels@).map_values(
            |e: (u32, Seq<char>)| e.1 + "("@ + text::dec(e.0 as nat) + ")"@,
        );
        let mut parts: Vec<String> = Vec::new();
        let mut i: usize = 0;
        while i < list.len()
            invariant
                i <= list.len(),
                entries_view(list@) == listing(self.labels@),
                words == listing(self.labels@).map_values(
                    |e: (u32, Seq<char>)| e.1 + "("@ + text::dec(e.0 as nat) + ")"@,
                ),
                text::texts(parts@) == words.take(i as int),
            decreases list.len() - i,
        {
            let (n, label) = list[i];
            assert(entries_view(list@)[i as int] == (n, label@));
            push_text(
                &mut parts,
                label.as_str().to_owned().concat("(").concat(dec_text(n as u64).as_str()).concat(
                    ")",
                ),
            );
            assert(words.take(i + 1) =~= words.take(i as int).push(words[i as int]));
            i = i + 1;
        }
        assert(words.take(words.len() as int) =~= words);
        join(&parts, ", ")
    }
}

// ---------------------------------------------------------------------------
// Finding parameters
// ---------------------------------------------------------------------------

/// The first parameter with this name.
pub open spec fn named(params: Seq<Param>, name: Seq<char>) -> Option<Param>
    decreases params.len(),
{
    if params.len() == 0 {
        None
    } else if named(params.drop_last(), name) is Some {
        named(params.drop_last(), name)
    } else if params.last().name@ == name {
        Some(params.last())
    } else {
        None
    }
}

/// The first parameter that is read at this address.
pub open spec fn read_at(params: Seq<Param>, addr: Seq<u8>) -> Option<Param>
    decreases params.len(),
{
    if params.len() == 0 {
        None
    } else if read_at(params.drop_last(), addr) is Some {
        read_at(params.drop_last(), addr)
    } else if address_option(params.last().read_address) == Some(addr) {
        Some(params.last())
    } else {
        None
    }
}

/// The first parameter that is written at this address.
pub open spec fn written_at(params: Seq<Param>, addr: Seq<u8>) -> Option<Param>
    decreases params.len(),
{
    if params.len() == 0 {
        None
    } else if written_at(params.drop_last(), addr) is Some {
        written_at(params.drop_last(), addr)
    } else if address_option(params.last().write_address) == Some(addr) {
        Some(params.last())
    } else {
        None
    }
}

/// The parameter at this address: one that is read there, else one that is
/// written there.
pub open spec fn located(params: Seq<Param>, addr: Seq<u8>) -> Option<Param> {
    if read_at(params, addr) is Some {
        read_at(params, addr)
    } else {
        written_at(params, addr)
    }
}

/// Whether the parameter is read or written at this address.
pub open spec fn claims(param: Param, addr: Seq<u8>) -> bool {
    address_option(param.read_address) == Some(addr) || address_option(param.write_address)
        == Some(addr)
}

/// The name of the latest parameter that claims this address.
pub open spec fn claimant(params: Seq<Param>, addr: Seq<u8>) -> Option<Seq<char>>
    decreases params.len(),
{
    if params.len() == 0 {
        None
    } else if claims(params.last(), addr) {
        Some(params.last().name@)
    } else {
        claimant(params.drop_last(), addr)
    }
}

/// What a search found, as a value.
pub open spec fn found(r: Option<&Param>) -> Option<Param> {
    match r {
        Some(p) => Some(*p),
        None => None,
    }
}

fn find_named<'a>(params: &'a Vec<Param>, upto: usize, name: &str) -> (r: Option<&'a Param>)
    requires
        upto <= params.len(),
    ensures
        found(r) == named(params@.take(upto as int), name@),
{
    let mut r: Option<&'a Param> = None;
    let mut i: usize = 0;
    while i < upto
        invariant
            i <= upto <= params.len(),
            found(r) == named(params@.take(i as int), name@),
        decreases upto - i,
    {
        assert(params@.take(i + 1).drop_last() =~= params@.take(i as int));
        if r.is_none() && same(params[i].name.as_str(), name) {
            r = Some(&params[i]);
        }
        i = i + 1;
    }
    r
}

fn address_is(a: &Option<Address>, addr: &Address) -> (r: bool)
    ensures
        r == (address_option(*a) == Some(addr@)),
{
    match a {
        Some(a) => a.same(addr),
        None => false,
    }
}

fn find_claimant<'a>(params: &'a Vec<Param>, upto: usize, addr: &Address) -> (r: Option<&'a str>)
    requires
        upto <= params.len(),
    ensures
        text_option(r) == claimant(params@.take(upto as int), addr@),
{
    let mut r: Option<&'a str> = None;
    let mut i: usize = 0;
    while i < upto
        invariant
            i <= upto <= params.len(),
            text_option(r) == claimant(params@.take(i as int), addr@),
        decreases upto - i,
    {
        assert(params@.take(i + 1).drop_last() =~= params@.take(i as int));
        if address_is(&params[i].read_address, addr) || address_is(&params[i].write_address, addr) {
            r = Some(params[i].name.as_str());
        }
        i = i + 1;
    }
    r
}

/// What a lookup by name returns, as values.
pub open spec fn lookup_result(r: Result<&Param, String>) -> Result<Param, Seq<char>> {
    match r {
        Ok(p) => Ok(*p),
        Err(e) => Err(e@),
    }
}

/// The parameter with this name that can be read, or why there is none.
pub open spec fn readable_named(params: Seq<Param>, name: Seq<char>) -> Result<Param, Seq<char>> {
    match named(params, name) {
        None => Err("no parameter named "@ + text::quoted(name) + " in the map"@),
        Some(param) => if param.read_address is None {
            match param.verify_with {
                Some(partner) => Err(name + " has no read address"@ + "; try "@ + partner@),
                None => Err(name + " has no read address"@),
            }
        } else {
            Ok(param)
        },
    }
}

impl AddressMap {
    /// The codec for the device's model, with its default device ID.
    pub fn codec(&self) -> (r: Codec)
        ensures
            r.model() == self.device.model_id@,
            r.device() == self.device.device_id_default,
    {
        Codec::new(slice_to_vec(self.device.model_id.as_slice()), self.device.device_id_default)
    }

    /// The first parameter with this name.
    pub fn param(&self, name: &str) -> (r: Option<&Param>)
        ensures
            found(r) == named(self.params@, name@),
    {
        assert(self.params@.take(self.params@.len() as int) =~= self.params@);
        find_named(&self.params, self.params.len(), name)
    }

    /// The parameter with this name, where it can be read.
    pub fn readable(&self, name: &str) -> (r: Result<&Param, String>)
        ensures
            lookup_result(r) == readable_named(self.params@, name@),
    {
        match self.param(name) {
            None => Err(
                "no parameter named ".to_owned().concat(quote(name).as_str()).concat(
                    " in the map",
                ),
            ),
            Some(param) => {
                if param.read_address.is_none() {
                    let mut e = name.to_owned().concat(" has no read address");
                    if let Some(partner) = &param.verify_with {
                        e = e.concat("; try ").concat(partner.as_str());
                    }
                    return Err(e);
                }
                Ok(param)
            },
        }
    }

    /// The parameter at this address: one that is read there, else one that is
    /// written there.
    pub fn param_at(&self, addr: Address) -> (r: Option<&Param>)
        ensures
            found(r) == located(self.params@, addr@),
    {
        let mut read: Option<&Param> = None;
        let mut written: Option<&Param> = None;
        let mut i: usize = 0;
        while i < self.params.len()
            invariant
                i <= self.params.len(),
                found(read) == read_at(self.params@.take(i as int), addr@),
                found(written) == written_at(self.params@.take(i as int), addr@),
            decreases self.params.len() - i,
        {
            assert(self.params@.take(i + 1).drop_last() =~= self.params@.take(i as int));
            if read.is_none() && address_is(&self.params[i].read_address, &addr) {
                read = Some(&self.params[i]);
            }
            if written.is_none() && address_is(&self.params[i].write_address, &addr) {
                written = Some(&self.params[i]);
            }
            i = i + 1;
        }
        assert(self.params@.take(self.params@.len() as int) =~= self.params@);
        if read.is_some() {
            read
        } else {
            written
        }
    }
}

// ---------------------------------------------------------------------------
// Consistency
// ---------------------------------------------------------------------------

/// Whether `name` is a lowercase letter and then lowercase letters, digits and
/// underscores.
pub open spec fn identifier(name: Seq<char>) -> bool {
    &&& name.len() > 0
    &&& 'a' <= name[0] <= 'z'
    &&& forall|i: int|
        0 < i < name.len() ==> ('a' <= #[trigger] name[i] <= 'z') || ('0' <= name[i] <= '9')
            || name[i] == '_'
}

/// Whether `s` holds nothing but white space.
pub open spec fn blank(s: Seq<char>) -> bool {
    forall|i: int| 0 <= i < s.len() ==> text::white_space(#[trigger] s[i])
}

/// Whether `name` is a lowercase letter and then lowercase letters, digits and
/// underscores.
pub fn is_identifier(name: &str) -> (r: bool)
    ensures
        r == identifier(name@),
{
    let chars = chars_of(name);
    if chars.len() == 0 || !('a' <= chars[0] && chars[0] <= 'z') {
        return false;
    }
    let mut i: usize = 1;
    while i < chars.len()
        invariant
            chars@ == name@,
            1 <= i <= chars.len(),
            'a' <= name@[0] <= 'z',
            forall|k: int|
                0 < k < i ==> ('a' <= #[trigger] name@[k] <= 'z') || ('0' <= name@[k] <= '9')
                    || name@[k] == '_',
        decreases chars.len() - i,
    {
        let c = chars[i];
        if !(('a' <= c && c <= 'z') || ('0' <= c && c <= '9') || c == '_') {
            assert(name@[i as int] == c);
            return false;
        }
        i = i + 1;
    }
    true
}

fn is_blank(s: &str) -> (r: bool)
    ensures
        r == blank(s@),
{
    let chars = chars_of(s);
    let mut i: usize = 0;
    while i < chars.len()
        invariant
            chars@ == s@,
            i <= chars.len(),
            forall|k: int| 0 <= k < i ==> text::white_space(#[trigger] s@[k]),
        decreases chars.len() - i,
    {
        if !is_white_space(chars[i]) {
            assert(!text::white_space(s@[i as int]));
            return false;
        }
        i = i + 1;
    }
    true
}

/// What is wrong with the bytes of a device field.
pub open spec fn field_problems(field: Seq<char>, bytes: Seq<u8>) -> Seq<Seq<char>> {
    let empty = text::noted(
        Seq::empty(),
        bytes.len() == 0,
        "device."@ + field + " is empty"@,
    );
    match sysex::first_wide(bytes) {
        Some(b) => empty.push(
            "device."@ + field + " byte "@ + text::prefixed_hex(b) + " is not 7-bit"@,
        ),
        None => empty,
    }
}

/// What is wrong with the length of a device field.
pub open spec fn width_problems(field: Seq<char>, bytes: Seq<u8>) -> Seq<Seq<char>> {
    text::noted(
        Seq::empty(),
        bytes.len() != 2,
        "device."@ + field + " must contain exactly 2 bytes, got "@ + text::dec(bytes.len()),
    )
}

/// What is wrong with the device.
pub open spec fn device_problems(device: Device) -> Seq<Seq<char>> {
    field_problems("model_id"@, device.model_id@) + field_problems(
        "identity_family"@,
        device.identity_family@,
    ) + field_problems("identity_member"@, device.identity_member@) + width_problems(
        "identity_family"@,
        device.identity_family@,
    ) + width_problems("identity_member"@, device.identity_member@) + text::noted(
        Seq::empty(),
        device.device_id_default > 0x7F,
        "device.device_id_default is not 7-bit"@,
    )
}

/// What is wrong with the name and the addresses of the parameter at `i`.
pub open spec fn place_complaints(params: Seq<Param>, i: int) -> Seq<Seq<char>> {
    let param = params[i];
    let name = param.name@;
    let a = text::noted(
        Seq::empty(),
        named(params.take(i), name) is Some,
        "duplicate parameter name"@,
    );
    let b = text::noted(a, !identifier(name), "name is not lowercase snake_case"@);
    let c = text::noted(
        b,
        param.read_address is None && param.write_address is None,
        "has neither a read nor a write address"@,
    );
    let d = match (param.read_address, claimant(params.take(i), param.read_address->0@)) {
        (Some(addr), Some(owner)) => text::noted(
            c,
            owner != name,
            "address "@ + hex::spaced_hex_of(addr@) + " is also claimed by "@ + owner,
        ),
        _ => c,
    };
    match (param.write_address, claimant(params.take(i), param.write_address->0@)) {
        (Some(addr), Some(owner)) => text::noted(
            d,
            owner != name && address_option(param.read_address) != Some(addr@),
            "address "@ + hex::spaced_hex_of(addr@) + " is also claimed by "@ + owner,
        ),
        _ => d,
    }
}

/// What is wrong with the size of a parameter.
pub open spec fn size_complaints(param: Param) -> Seq<Seq<char>> {
    let a = text::noted(
        Seq::empty(),
        param.size == 0 || param.size > MAX_SIZE,
        "size must be 1..="@ + text::dec(MAX_SIZE as nat),
    );
    match param.encoding.fixed_size() {
        Some(fixed) => text::noted(
            a,
            fixed != param.size,
            "size "@ + text::dec(param.size as nat) + " does not match "@ + param.encoding.name()
                + " ("@ + text::dec(fixed as nat) + " byte(s))"@,
        ),
        None => a,
    }
}

/// What is wrong with the labels and the range of a parameter.
pub open spec fn value_complaints(param: Param) -> Seq<Seq<char>> {
    let list = listing(param.labels@);
    match param.encoding.largest() {
        None => text::noted(
            text::noted(
                Seq::empty(),
                !param.labels@.is_empty(),
                "raw values cannot be labelled"@,
            ),
            param.range is Some,
            "raw values cannot have a range"@,
        ),
        Some(ceiling) => {
            let a = match first_outside(list, 0, ceiling) {
                Some(v) => seq![
                    "label key "@ + text::dec(v as nat) + " exceeds the encoding's "@ + text::dec(
                        ceiling as nat,
                    ),
                ],
                None => Seq::empty(),
            };
            let b = match first_repeated(list) {
                Some(label) => a.push(
                    "label "@ + text::quoted(label) + " names more than one value"@,
                ),
                None => a,
            };
            match param.range {
                Some(range) => {
                    let c = text::noted(
                        b,
                        range.min > range.max,
                        "range "@ + text::dec(range.min as nat) + "..="@ + text::dec(
                            range.max as nat,
                        ) + " is inverted"@,
                    );
                    let d = text::noted(
                        c,
                        range.max > ceiling,
                        "range max "@ + text::dec(range.max as nat) + " exceeds "@ + text::dec(
                            ceiling as nat,
                        ),
                    );
                    match first_outside(list, range.min, range.max) {
                        Some(v) => d.push(
                            "label key "@ + text::dec(v as nat) + " is outside range "@
                                + text::dec(range.min as nat) + "..="@ + text::dec(
                                range.max as nat,
                            ),
                        ),
                        None => d,
                    }
                },
                None => b,
            }
        },
    }
}

/// What is wrong with the parameter that a parameter is verified with.
pub open spec fn partner_complaints(params: Seq<Param>, param: Param) -> Seq<Seq<char>> {
    match param.verify_with {
        None => Seq::empty(),
        Some(partner) => {
            let a = text::noted(
                Seq::empty(),
                param.read_address is Some,
                "has its own read address, so verify_with is redundant"@,
            );
            match named(params, partner@) {
                None => a.push("verify_with names unknown "@ + text::quoted(partner@)),
                Some(target) => if target.read_address is None {
                    a.push("verify_with "@ + text::quoted(partner@) + " cannot be read"@)
                } else {
                    text::noted(
                        a,
                        target.labels@.is_empty() || param.labels@.is_empty(),
                        "verify_with "@ + text::quoted(partner@)
                            + " needs labels on both parameters"@,
                    )
                },
            }
        },
    }
}

/// What is wrong with the confirmations of a parameter.
pub open spec fn verified_complaints(verified: Seq<Verification>) -> Seq<Seq<char>>
    decreases verified.len(),
{
    if verified.len() == 0 {
        Seq::empty()
    } else {
        let v = verified.last();
        text::noted(
            text::noted(
                verified_complaints(verified.drop_last()),
                !calendar::iso_date(v.date@),
                "verified on "@ + text::quoted(v.date@)
                    + ", which is not a real YYYY-MM-DD date"@,
            ),
            blank(v.firmware@),
            "a verification without a firmware revision has no scope"@,
        )
    }
}

/// What is wrong with the parameter at `i`.
pub open spec fn complaints(params: Seq<Param>, i: int) -> Seq<Seq<char>> {
    let param = params[i];
    place_complaints(params, i) + size_complaints(param) + value_complaints(param)
        + partner_complaints(params, param) + verified_complaints(param.verified@)
}

/// Each message with the parameter's name before it.
pub open spec fn attributed(name: Seq<char>, messages: Seq<Seq<char>>) -> Seq<Seq<char>> {
    messages.map_values(|m: Seq<char>| name + ": "@ + m)
}

/// What is wrong with the first `n` parameters.
pub open spec fn param_problems(params: Seq<Param>, n: int) -> Seq<Seq<char>>
    decreases n,
{
    if n <= 0 {
        Seq::empty()
    } else {
        param_problems(params, n - 1) + attributed(
            params[n - 1].name@,
            complaints(params, n - 1),
        )
    }
}

/// What is wrong with an example.
pub open spec fn example_complaint(map: AddressMap, example: Example) -> Option<Seq<char>> {
    match hex::parsed_hex_field(example.frame@) {
        Err(e) => Some(e),
        Ok(bytes) => match sysex::decoded_frame(map.device.model_id@, bytes) {
            Err(e) => Some(e.words()),
            Ok(sysex::IncomingView::Dt1 { addr, data, .. }) => match located(map.params@, addr) {
                None => Some(
                    "writes "@ + hex::spaced_hex_of(addr) + ", which no parameter claims"@,
                ),
                Some(param) => if data.len() != param.size {
                    Some(
                        "writes "@ + text::dec(data.len()) + " byte(s) to "@ + param.name@
                            + ", which is "@ + text::dec(param.size as nat) + " byte(s)"@,
                    )
                } else {
                    None
                },
            },
            Ok(sysex::IncomingView::Rq1 { addr, size, .. }) => match located(map.params@, addr) {
                None => Some(
                    "reads "@ + hex::spaced_hex_of(addr) + ", which no parameter claims"@,
                ),
                Some(param) => if size != param.size {
                    Some(
                        "reads "@ + text::dec(size as nat) + " byte(s) from "@ + param.name@
                            + ", which is "@ + text::dec(param.size as nat) + " byte(s)"@,
                    )
                } else {
                    None
                },
            },
            Ok(_) => Some("is not a DT1 or RQ1 for this device"@),
        },
    }
}

/// What is wrong with the first `n` examples.
pub open spec fn example_problems(map: AddressMap, n: int) -> Seq<Seq<char>>
    decreases n,
{
    if n <= 0 {
        Seq::empty()
    } else {
        let before = example_problems(map, n - 1);
        let example = map.examples@[n - 1];
        match example_complaint(map, example) {
            Some(m) => before.push("example "@ + text::quoted(example.note@) + ": "@ + m),
            None => before,
        }
    }
}

/// Everything that is wrong with a map, in the order in which it is reported.
pub open spec fn problems(map: AddressMap) -> Seq<Seq<char>> {
    text::noted(
        Seq::empty(),
        map.schema@ != SCHEMA@,
        "schema is "@ + text::quoted(map.schema@) + ", expected "@ + text::quoted(SCHEMA@),
    ) + device_problems(map.device) + text::noted(
        Seq::empty(),
        map.params@.len() == 0,
        "no parameters"@,
    ) + param_problems(map.params@, map.params@.len() as int) + example_problems(
        map,
        map.examples@.len() as int,
    )
}

fn check_field(field: &str, bytes: &Vec<u8>) -> (r: Vec<String>)
    ensures
        text::texts(r@) == field_problems(field@, bytes@),
{
    let mut out = no_texts();
    if bytes.len() == 0 {
        push_text(&mut out, "device.".to_owned().concat(field).concat(" is empty"));
    }
    if let Some(b) = find_wide(bytes.as_slice()) {
        push_text(
            &mut out,
            "device.".to_owned().concat(field).concat(" byte ").concat(
                prefixed_hex_text(b).as_str(),
            ).concat(" is not 7-bit"),
        );
    }
    out
}

fn check_width(field: &str, bytes: &Vec<u8>) -> (r: Vec<String>)
    ensures
        text::texts(r@) == width_problems(field@, bytes@),
{
    let mut out = no_texts();
    if bytes.len() != 2 {
        push_text(
            &mut out,
            "device.".to_owned().concat(field).concat(" must contain exactly 2 bytes, got ").concat(
                dec_text(bytes.len() as u64).as_str(),
            ),
        );
    }
    out
}

fn check_device(device: &Device) -> (r: Vec<String>)
    ensures
        text::texts(r@) == device_problems(*device),
{
    let mut out = check_field("model_id", &device.model_id);
    append_texts(&mut out, check_field("identity_family", &device.identity_family));
    append_texts(&mut out, check_field("identity_member", &device.identity_member));
    append_texts(&mut out, check_width("identity_family", &device.identity_family));
    append_texts(&mut out, check_width("identity_member", &device.identity_member));
    let mut last = no_texts();
    if device.device_id_default > 0x7F {
        push_text(&mut last, "device.device_id_default is not 7-bit".to_owned());
    }
    append_texts(&mut out, last);
    out
}

fn also_claimed(addr: &Address, owner: &str) -> (r: String)
    ensures
        r@ == "address "@ + hex::spaced_hex_of(addr@) + " is also claimed by "@ + owner@,
{
    "address ".to_owned().concat(addr.to_text().as_str()).concat(" is also claimed by ").concat(
        owner,
    )
}

fn check_place(params: &Vec<Param>, i: usize) -> (r: Vec<String>)
    requires
        i < params.len(),
    ensures
        text::texts(r@) == place_complaints(params@, i as int),
{
    let param = &params[i];
    let name = param.name.as_str();
    let mut out = no_texts();
    if find_named(params, i, name).is_some() {
        push_text(&mut out, "duplicate parameter name".to_owned());
    }
    if !is_identifier(name) {
        push_text(&mut out, "name is not lowercase snake_case".to_owned());
    }
    if param.read_address.is_none() && param.write_address.is_none() {
        push_text(&mut out, "has neither a read nor a write address".to_owned());
    }
    if let Some(addr) = &param.read_address {
        if let Some(owner) = find_claimant(params, i, addr) {
            if !same(owner, name) {
                push_text(&mut out, also_claimed(addr, owner));
            }
        }
    }
    if let Some(addr) = &param.write_address {
        if let Some(owner) = find_claimant(params, i, addr) {
            if !same(owner, name) && !address_is(&param.read_address, addr) {
                push_text(&mut out, also_claimed(addr, owner));
            }
        }
    }
    out
}

fn check_size(param: &Param) -> (r: Vec<String>)
    ensures
        text::texts(r@) == size_complaints(*param),
{
    let mut out = no_texts();
    if param.size == 0 || param.size > MAX_SIZE {
        push_text(
            &mut out,
            "size must be 1..=".to_owned().concat(dec_text(MAX_SIZE as u64).as_str()),
        );
    }
    if let Some(fixed) = param.encoding.size() {
        if fixed != param.size {
            push_text(
                &mut out,
                "size ".to_owned().concat(dec_text(param.size as u64).as_str()).concat(
                    " does not match ",
                ).concat(param.encoding.to_text()).concat(" (").concat(
                    dec_text(fixed as u64).as_str(),
                ).concat(" byte(s))"),
            );
        }
    }
    out
}

fn check_values(param: &Param) -> (r: Vec<String>)
    ensures
        text::texts(r@) == value_complaints(*param),
{
    let mut out = no_texts();
    match param.encoding.ceiling() {
        None => {
            if !param.labels.is_empty() {
                push_text(&mut out, "raw values cannot be labelled".to_owned());
            }
            if param.range.is_some() {
                push_text(&mut out, "raw values cannot have a range".to_owned());
            }
        },
        Some(ceiling) => {
            let list = entries(&param.labels);
            if let Some(v) = find_outside(&list, 0, ceiling) {
                push_text(
                    &mut out,
                    "label key ".to_owned().concat(dec_text(v as u64).as_str()).concat(
                        " exceeds the encoding's ",
                    ).concat(dec_text(ceiling as u64).as_str()),
                );
                assert(text::texts(out@) =~= seq![
                    "label key "@ + text::dec(v as nat) + " exceeds the encoding's "@ + text::dec(
                        ceiling as nat,
                    ),
                ]);
            }
            if let Some(label) = find_repeated(&list) {
                push_text(
                    &mut out,
                    "label ".to_owned().concat(quote(label.as_str()).as_str()).concat(
                        " names more than one value",
                    ),
                );
            }
            if let Some(range) = param.range {
                if range.min > range.max {
                    push_text(
                        &mut out,
                        "range ".to_owned().concat(dec_text(range.min as u64).as_str()).concat(
                            "..=",
                        ).concat(dec_text(range.max as u64).as_str()).concat(" is inverted"),
                    );
                }
                if range.max > ceiling {
                    push_text(
                        &mut out,
                        "range max ".to_owned().concat(dec_text(range.max as u64).as_str()).concat(
                            " exceeds ",
                        ).concat(dec_text(ceiling as u64).as_str()),
                    );
                }
                if let Some(v) = find_outside(&list, range.min, range.max) {
                    push_text(
                        &mut out,
                        "label key ".to_owned().concat(dec_text(v as u64).as_str()).concat(
                            " is outside range ",
                        ).concat(dec_text(range.min as u64).as_str()).concat("..=").concat(
                            dec_text(range.max as u64).as_str(),
                        ),
                    );
                }
            }
        },
    }
    out
}

fn check_partner(map: &AddressMap, param: &Param) -> (r: Vec<String>)
    ensures
        text::texts(r@) == partner_complaints(map.params@, *param),
{
    let mut out = no_texts();
    if let Some(partner) = &param.verify_with {
        if param.read_address.is_some() {
            push_text(
                &mut out,
                "has its own read address, so verify_with is redundant".to_owned(),
            );
        }
        let shown = quote(partner.as_str());
        match map.param(partner.as_str()) {
            None => {
                push_text(
                    &mut out,
                    "verify_with names unknown ".to_owned().concat(shown.as_str()),
                );
            },
            Some(target) => {
                if target.read_address.is_none() {
                    push_text(
                        &mut out,
                        "verify_with ".to_owned().concat(shown.as_str()).concat(" cannot be read"),
                    );
                } else if target.labels.is_empty() || param.labels.is_empty() {
                    push_text(
                        &mut out,
                        "verify_with ".to_owned().concat(shown.as_str()).concat(
                            " needs labels on both parameters",
                        ),
                    );
                }
            },
        }
    }
    out
}

fn check_verified(verified: &Vec<Verification>) -> (r: Vec<String>)
    ensures
        text::texts(r@) == verified_complaints(verified@),
{
    let mut out = no_texts();
    let mut i: usize = 0;
    while i < verified.len()
        invariant
            i <= verified.len(),
            text::texts(out@) == verified_complaints(verified@.take(i as int)),
        decreases verified.len() - i,
    {
        assert(verified@.take(i + 1).drop_last() =~= verified@.take(i as int));
        let v = &verified[i];
        if !is_iso_date(v.date.as_str()) {
            push_text(
                &mut out,
                "verified on ".to_owned().concat(quote(v.date.as_str()).as_str()).concat(
                    ", which is not a real YYYY-MM-DD date",
                ),
            );
        }
        if is_blank(v.firmware.as_str()) {
            push_text(
                &mut out,
                "a verification without a firmware revision has no scope".to_owned(),
            );
        }
        i = i + 1;
    }
    assert(verified@.take(verified@.len() as int) =~= verified@);
    out
}

fn attribute(name: &str, messages: Vec<String>) -> (r: Vec<String>)
    ensures
        text::texts(r@) == attributed(name@, text::texts(messages@)),
{
    let mut out = no_texts();
    let ghost want = attributed(name@, text::texts(messages@));
    let mut i: usize = 0;
    while i < messages.len()
        invariant
            i <= messages.len(),
            want == attributed(name@, text::texts(messages@)),
            text::texts(out@) == want.take(i as int),
        decreases messages.len() - i,
    {
        push_text(&mut out, name.to_owned().concat(": ").concat(messages[i].as_str()));
        assert(want.take(i + 1) =~= want.take(i as int).push(want[i as int]));
        i = i + 1;
    }
    assert(want.take(want.len() as int) =~= want);
    out
}

fn check_example(map: &AddressMap, codec: &Codec, example: &Example) -> (r: Option<String>)
    requires
        codec.model() == map.device.model_id@,
    ensures
        match r {
            Some(m) => example_complaint(*map, *example) == Some(m@),
            None => example_complaint(*map, *example) is None,
        },
{
    let bytes = match parse_hex_field(example.frame.as_str()) {
        Ok(bytes) => bytes,
        Err(e) => {
            return Some(e);
        },
    };
    match codec.decode(bytes.as_slice()) {
        Err(e) => Some(e.to_text()),
        Ok(Incoming::Dt1 { addr, data, .. }) => match map.param_at(addr) {
            None => Some(
                "writes ".to_owned().concat(addr.to_text().as_str()).concat(
                    ", which no parameter claims",
                ),
            ),
            Some(param) => if data.len() != param.size as usize {
                Some(
                    "writes ".to_owned().concat(dec_text(data.len() as u64).as_str()).concat(
                        " byte(s) to ",
                    ).concat(param.name.as_str()).concat(", which is ").concat(
                        dec_text(param.size as u64).as_str(),
                    ).concat(" byte(s)"),
                )
            } else {
                None
            },
        },
        Ok(Incoming::Rq1 { addr, size, .. }) => match map.param_at(addr) {
            None => Some(
                "reads ".to_owned().concat(addr.to_text().as_str()).concat(
                    ", which no parameter claims",
                ),
            ),
            Some(param) => if size != param.size as u32 {
                Some(
                    "reads ".to_owned().concat(dec_text(size as u64).as_str()).concat(
                        " byte(s) from ",
                    ).concat(param.name.as_str()).concat(", which is ").concat(
                        dec_text(param.size as u64).as_str(),
                    ).concat(" byte(s)"),
                )
            } else {
                None
            },
        },
        Ok(_) => Some("is not a DT1 or RQ1 for this device".to_owned()),
    }
}

impl AddressMap {
    /// Everything that is wrong with the map; nothing where it is consistent.
    pub fn validate(&self) -> (r: Vec<String>)
        ensures
            text::texts(r@) == problems(*self),
    {
        let mut out = no_texts();
        if !same(self.schema.as_str(), SCHEMA) {
            push_text(
                &mut out,
                "schema is ".to_owned().concat(quote(self.schema.as_str()).as_str()).concat(
                    ", expected ",
                ).concat(quote(SCHEMA).as_str()),
            );
        }
        append_texts(&mut out, check_device(&self.device));
        let mut none = no_texts();
        if self.params.len() == 0 {
            push_text(&mut none, "no parameters".to_owned());
        }
        append_texts(&mut out, none);
        append_texts(&mut out, self.check_params());
        append_texts(&mut out, self.check_examples());
        out
    }

    fn check_params(&self) -> (r: Vec<String>)
        ensures
            text::texts(r@) == param_problems(self.params@, self.params@.len() as int),
    {
        let mut out = no_texts();
        let mut i: usize = 0;
        while i < self.params.len()
            invariant
                i <= self.params.len(),
                text::texts(out@) == param_problems(self.params@, i as int),
            decreases self.params.len() - i,
        {
            let param = &self.params[i];
            let mut messages = check_place(&self.params, i);
            append_texts(&mut messages, check_size(param));
            append_texts(&mut messages, check_values(param));
            append_texts(&mut messages, check_partner(self, param));
            append_texts(&mut messages, check_verified(&param.verified));
            append_texts(&mut out, attribute(param.name.as_str(), messages));
            i = i + 1;
        }
        out
    }

    fn check_examples(&self) -> (r: Vec<String>)
        ensures
            text::texts(r@) == example_problems(*self, self.examples@.len() as int),
    {
        let codec = self.codec();
        let mut out = no_texts();
        let mut i: usize = 0;
        while i < self.examples.len()
            invariant
                i <= self.examples.len(),
                codec.model() == self.device.model_id@,
                text::texts(out@) == example_problems(*self, i as int),
            decreases self.examples.len() - i,
        {
            let example = &self.examples[i];
            if let Some(message) = check_example(self, &codec, example) {
                push_text(
                    &mut out,
                    "example ".to_owned().concat(quote(example.note.as_str()).as_str()).concat(
                        ": ",
                    ).concat(message.as_str()),
                );
            }
            i = i + 1;
        }
        out
    }

    /// The map, where it is consistent; else what is wrong with it, under the
    /// path that it was read from.
    pub fn load(map: AddressMap, path: &str) -> (r: Result<AddressMap, String>)
        ensures
            match r {
                Ok(loaded) => problems(map).len() == 0 && loaded == map,
                Err(e) => problems(map).len() > 0 && e@ == path@ + " is inconsistent:\n"@
                    + text::joined(problems(map), "\n"@),
            },
    {
        let found = map.validate();
        if found.len() == 0 {
            assert(problems(map).len() == 0);
            Ok(map)
        } else {
            Err(
                path.to_owned().concat(" is inconsistent:\n").concat(join(&found, "\n").as_str()),
            )
        }
    }
}

/// The single byte that a field spells, or why it spells none.
pub open spec fn parsed_hex_byte(s: Seq<char>) -> Result<u8, Seq<char>> {
    match hex::parsed_hex_field(s) {
        Ok(bytes) => if bytes.len() == 1 {
            Ok(bytes[0])
        } else {
            Err("expected one hex byte, got "@ + text::dec(bytes.len()))
        },
        Err(e) => Err(e),
    }
}

/// The single byte that a field spells.
pub fn hex_byte(s: &str) -> (r: Result<u8, String>)
    ensures
        match r {
            Ok(b) => parsed_hex_byte(s@) == Ok::<u8, Seq<char>>(b),
            Err(e) => parsed_hex_byte(s@) == Err::<u8, Seq<char>>(e@),
        },
{
    match parse_hex_field(s) {
        Ok(bytes) => if bytes.len() == 1 {
            Ok(bytes[0])
        } else {
            Err(
                "expected one hex byte, got ".to_owned().concat(
                    dec_text(bytes.len() as u64).as_str(),
                ),
            )
        },
        Err(e) => Err(e),
    }
}

// ---------------------------------------------------------------------------
// Laws
// ---------------------------------------------------------------------------

/// Whether the bytes identify a device: two data bytes.
pub open spec fn identity_field(bytes: Seq<u8>) -> bool {
    bytes.len() == 2 && sysex::all_seven_bit(bytes)
}

/// Whether the labels and the range of a parameter fit its encoding.
pub open spec fn values_fit(param: Param) -> bool {
    match param.encoding.largest() {
        None => param.labels@.is_empty() && param.range is None,
        Some(ceiling) => {
            &&& forall|k: u32| #[trigger] param.labels@.contains_key(k) ==> k <= ceiling
            &&& forall|j: u32, k: u32| #[trigger]
                param.labels@.contains_key(j) && #[trigger] param.labels@.contains_key(k)
                    && param.labels@[j]@ == param.labels@[k]@ ==> j == k
            &&& param.range matches Some(range) ==> {
                &&& range.min <= range.max <= ceiling
                &&& forall|k: u32| #[trigger]
                    param.labels@.contains_key(k) ==> range.min <= k <= range.max
            }
        },
    }
}

/// Whether what a parameter is verified with can verify it.
pub open spec fn partner_fits(params: Seq<Param>, param: Param) -> bool {
    param.verify_with matches Some(partner) ==> {
        &&& param.read_address is None
        &&& !param.labels@.is_empty()
        &&& named(params, partner@) matches Some(target) && target.read_address is Some
            && !target.labels@.is_empty()
    }
}

/// Whether a confirmation says when and on what.
pub open spec fn is_confirmation(v: Verification) -> bool {
    calendar::iso_date(v.date@) && !blank(v.firmware@)
}

/// Whether a parameter, taken by itself, is in order.
pub open spec fn is_sound(params: Seq<Param>, param: Param) -> bool {
    &&& identifier(param.name@)
    &&& param.read_address is Some || param.write_address is Some
    &&& 1 <= param.size <= MAX_SIZE
    &&& param.encoding.fixed_size() matches Some(fixed) ==> fixed == param.size
    &&& values_fit(param)
    &&& partner_fits(params, param)
    &&& forall|k: int| 0 <= k < param.verified@.len() ==> is_confirmation(#[trigger] param.verified@[k])
}

/// Whether no two parameters share a name or an address.
pub open spec fn are_apart(a: Param, b: Param) -> bool {
    &&& a.name@ != b.name@
    &&& forall|addr: Seq<u8>| !(#[trigger] claims(a, addr) && claims(b, addr))
}

/// Whether an example is a frame for this device that addresses one of its
/// parameters with the right size.
pub open spec fn example_holds(map: AddressMap, example: Example) -> bool {
    hex::parsed_hex_field(example.frame@) matches Ok(bytes) && match sysex::decoded_frame(
        map.device.model_id@,
        bytes,
    ) {
        Ok(sysex::IncomingView::Dt1 { addr, data, .. }) => located(map.params@, addr) matches Some(
            param,
        ) && param.size == data.len(),
        Ok(sysex::IncomingView::Rq1 { addr, size, .. }) => located(map.params@, addr) matches Some(
            param,
        ) && param.size == size,
        _ => false,
    }
}

/// Whether a device can be addressed and recognised.
pub open spec fn device_fits(device: Device) -> bool {
    &&& device.model_id@.len() > 0 && sysex::all_seven_bit(device.model_id@)
    &&& identity_field(device.identity_family@)
    &&& identity_field(device.identity_member@)
    &&& device.device_id_default <= 0x7F
}

/// Whether each parameter is in order and no two are in each other's way.
pub open spec fn params_fit(params: Seq<Param>) -> bool {
    &&& forall|i: int| 0 <= i < params.len() ==> is_sound(params, #[trigger] params[i])
    &&& forall|i: int, j: int|
        0 <= i < j < params.len() ==> are_apart(#[trigger] params[i], #[trigger] params[j])
}

/// Whether a map is consistent.
pub open spec fn consistent(map: AddressMap) -> bool {
    &&& map.schema@ == SCHEMA@
    &&& device_fits(map.device)
    &&& map.params@.len() > 0
    &&& params_fit(map.params@)
    &&& forall|k: int|
        0 <= k < map.examples@.len() ==> example_holds(map, #[trigger] map.examples@[k])
}

/// What a search by name finds.
pub proof fn lemma_named(params: Seq<Param>, name: Seq<char>)
    ensures
        match named(params, name) {
            Some(p) => p.name@ == name && params.contains(p),
            None => forall|i: int| 0 <= i < params.len() ==> (#[trigger] params[i]).name@ != name,
        },
    decreases params.len(),
{
    if params.len() > 0 {
        let before = params.drop_last();
        lemma_named(before, name);
        match named(before, name) {
            Some(p) => {
                let i = choose|i: int| 0 <= i < before.len() && before[i] == p;
                assert(params[i] == p);
            },
            None => {
                assert forall|i: int| 0 <= i < params.len() - 1 implies (#[trigger] params[i]).name@
                    != name by {
                    assert(before[i] == params[i]);
                }
                assert(params[params.len() - 1] == params.last());
            },
        }
    }
}

proof fn lemma_claimant(params: Seq<Param>, addr: Seq<u8>)
    ensures
        match claimant(params, addr) {
            Some(owner) => exists|i: int|
                0 <= i < params.len() && claims(#[trigger] params[i], addr) && params[i].name@
                    == owner,
            None => forall|i: int| 0 <= i < params.len() ==> !claims(#[trigger] params[i], addr),
        },
    decreases params.len(),
{
    if params.len() > 0 {
        let before = params.drop_last();
        lemma_claimant(before, addr);
        if claims(params.last(), addr) {
            assert(params[params.len() - 1] == params.last());
        } else {
            match claimant(before, addr) {
                Some(owner) => {
                    let i = choose|i: int|
                        0 <= i < before.len() && claims(#[trigger] before[i], addr)
                            && before[i].name@ == owner;
                    assert(claims(params[i], addr) && params[i].name@ == owner);
                },
                None => {
                    assert forall|i: int| 0 <= i < params.len() implies !claims(
                        #[trigger] params[i],
                        addr,
                    ) by {
                        if i < params.len() - 1 {
                            assert(before[i] == params[i]);
                        }
                    }
                },
            }
        }
    }
}

proof fn lemma_first_outside(list: Seq<(u32, Seq<char>)>, min: u32, max: u32)
    ensures
        first_outside(list, min, max) is None <==> forall|i: int|
            0 <= i < list.len() ==> min <= (#[trigger] list[i]).0 <= max,
    decreases list.len(),
{
    if list.len() > 0 {
        let before = list.drop_last();
        lemma_first_outside(before, min, max);
        if first_outside(list, min, max) is None {
            assert forall|i: int| 0 <= i < list.len() implies min <= (#[trigger] list[i]).0 <= max by {
                if i < list.len() - 1 {
                    assert(before[i] == list[i]);
                }
            }
        } else if first_outside(before, min, max) is Some {
            let i = choose|i: int|
                0 <= i < before.len() && !(min <= (#[trigger] before[i]).0 <= max);
            assert(!(min <= list[i].0 <= max));
        } else {
            assert(!(min <= list[list.len() - 1].0 <= max));
        }
    }
}

pub(crate) proof fn lemma_first_repeated(list: Seq<(u32, Seq<char>)>)
    ensures
        first_repeated(list) is None <==> forall|i: int, j: int|
            0 <= i < j < list.len() ==> (#[trigger] list[i]).1 != (#[trigger] list[j]).1,
    decreases list.len(),
{
    if list.len() > 0 {
        let before = list.drop_last();
        lemma_first_repeated(before);
        if first_repeated(list) is None {
            assert forall|i: int, j: int| 0 <= i < j < list.len() implies (#[trigger] list[i]).1 != (
            #[trigger] list[j]).1 by {
                if j < list.len() - 1 {
                    assert(before[i] == list[i] && before[j] == list[j]);
                }
            }
        } else if first_repeated(before) is Some {
            let (i, j) = choose|i: int, j: int|
                0 <= i < j < before.len() && (#[trigger] before[i]).1 == (#[trigger] before[j]).1;
            assert(list[i].1 == list[j].1);
        } else {
            let i = choose|i: int|
                0 <= i < list.len() - 1 && (#[trigger] list[i]).1 == list.last().1;
            assert(list[i].1 == list[list.len() - 1].1);
        }
    }
}

proof fn lemma_values_fit(param: Param)
    ensures
        value_complaints(param).len() == 0 <==> values_fit(param),
{
    let labels = param.labels@;
    let list = listing(labels);
    lemma_listing(labels);
    lemma_first_repeated(list);
    if let Some(ceiling) = param.encoding.largest() {
        lemma_first_outside(list, 0, ceiling);
        if first_outside(list, 0, ceiling) is None {
            assert forall|k: u32| #[trigger] labels.contains_key(k) implies k <= ceiling by {
                let i = choose|i: int| 0 <= i < list.len() && (#[trigger] list[i]).0 == k;
                assert(list[i].0 <= ceiling);
            }
        } else {
            let i = choose|i: int| 0 <= i < list.len() && !(0 <= (#[trigger] list[i]).0 <= ceiling);
            assert(labels.contains_key(list[i].0));
        }
        if first_repeated(list) is None {
            assert forall|j: u32, k: u32| #[trigger]
                labels.contains_key(j) && #[trigger] labels.contains_key(k) && labels[j]@
                    == labels[k]@ implies j == k by {
                let a = choose|a: int| 0 <= a < list.len() && (#[trigger] list[a]).0 == j;
                let b = choose|b: int| 0 <= b < list.len() && (#[trigger] list[b]).0 == k;
                assert(list[a].1 == list[b].1);
            }
        } else {
            let (i, j) = choose|i: int, j: int|
                0 <= i < j < list.len() && (#[trigger] list[i]).1 == (#[trigger] list[j]).1;
            assert(labels.contains_key(list[i].0) && labels.contains_key(list[j].0));
        }
        if let Some(range) = param.range {
            lemma_first_outside(list, range.min, range.max);
            if first_outside(list, range.min, range.max) is None {
                assert forall|k: u32| #[trigger] labels.contains_key(k) implies range.min <= k
                    <= range.max by {
                    let i = choose|i: int| 0 <= i < list.len() && (#[trigger] list[i]).0 == k;
                    assert(range.min <= list[i].0 <= range.max);
                }
            } else {
                let i = choose|i: int|
                    0 <= i < list.len() && !(range.min <= (#[trigger] list[i]).0 <= range.max);
                assert(labels.contains_key(list[i].0));
            }
        }
    }
}

proof fn lemma_verified(verified: Seq<Verification>)
    ensures
        verified_complaints(verified).len() == 0 <==> forall|k: int|
            0 <= k < verified.len() ==> is_confirmation(#[trigger] verified[k]),
    decreases verified.len(),
{
    if verified.len() > 0 {
        let before = verified.drop_last();
        lemma_verified(before);
        if verified_complaints(verified).len() == 0 {
            assert forall|k: int| 0 <= k < verified.len() implies is_confirmation(
                #[trigger] verified[k],
            ) by {
                if k < verified.len() - 1 {
                    assert(before[k] == verified[k]);
                }
            }
        } else if verified_complaints(before).len() > 0 {
            let k = choose|k: int| 0 <= k < before.len() && !is_confirmation(#[trigger] before[k]);
            assert(!is_confirmation(verified[k]));
        } else {
            assert(!is_confirmation(verified[verified.len() - 1]));
        }
    }
}

/// Whether the parameter at `i` has its own name and its own addresses.
spec fn stands_alone(params: Seq<Param>, i: int) -> bool {
    forall|j: int| 0 <= j < i ==> are_apart(#[trigger] params[j], params[i])
}

proof fn lemma_place(params: Seq<Param>, i: int)
    requires
        0 <= i < params.len(),
    ensures
        place_complaints(params, i).len() == 0 <==> {
            &&& stands_alone(params, i)
            &&& identifier(params[i].name@)
            &&& params[i].read_address is Some || params[i].write_address is Some
        },
{
    let param = params[i];
    let before = params.take(i);
    lemma_named(before, param.name@);
    if let Some(a) = param.read_address {
        lemma_claimant(before, a@);
    }
    if let Some(a) = param.write_address {
        lemma_claimant(before, a@);
    }
    if place_complaints(params, i).len() == 0 {
        assert forall|j: int| 0 <= j < i implies are_apart(#[trigger] params[j], param) by {
            assert(before[j] == params[j]);
            assert forall|addr: Seq<u8>| !(#[trigger] claims(params[j], addr) && claims(
                param,
                addr,
            )) by {
                if claims(params[j], addr) && claims(param, addr) {
                    assert(claims(before[j], addr));
                    lemma_claimant(before, addr);
                    let owner = claimant(before, addr)->0;
                    let k = choose|k: int|
                        0 <= k < before.len() && claims(#[trigger] before[k], addr)
                            && before[k].name@ == owner;
                    assert(before[k].name@ != param.name@);
                    assert(false);
                }
            }
        }
    } else if stands_alone(params, i) {
        match named(before, param.name@) {
            Some(p) => {
                let j = choose|j: int| 0 <= j < before.len() && before[j] == p;
                assert(are_apart(params[j], param));
            },
            None => {},
        }
        if let Some(a) = param.read_address {
            if let Some(owner) = claimant(before, a@) {
                let k = choose|k: int|
                    0 <= k < before.len() && claims(#[trigger] before[k], a@) && before[k].name@
                        == owner;
                assert(are_apart(params[k], param));
                assert(claims(params[k], a@) && claims(param, a@));
            }
        }
        if let Some(a) = param.write_address {
            if let Some(owner) = claimant(before, a@) {
                let k = choose|k: int|
                    0 <= k < before.len() && claims(#[trigger] before[k], a@) && before[k].name@
                        == owner;
                assert(are_apart(params[k], param));
                assert(claims(params[k], a@) && claims(param, a@));
            }
        }
    }
}

proof fn lemma_complaints(params: Seq<Param>, i: int)
    requires
        0 <= i < params.len(),
    ensures
        complaints(params, i).len() == 0 <==> stands_alone(params, i) && is_sound(
            params,
            params[i],
        ),
{
    lemma_place(params, i);
    lemma_values_fit(params[i]);
    lemma_verified(params[i].verified@);
}

proof fn lemma_param_problems(params: Seq<Param>, n: int)
    requires
        0 <= n <= params.len(),
    ensures
        param_problems(params, n).len() == 0 <==> forall|i: int|
            0 <= i < n ==> stands_alone(params, i) && is_sound(params, #[trigger] params[i]),
    decreases n,
{
    if n > 0 {
        lemma_param_problems(params, n - 1);
        lemma_complaints(params, n - 1);
        if param_problems(params, n - 1).len() == 0 {
            let last = params[n - 1];
            assert(attributed(last.name@, complaints(params, n - 1)).len() == complaints(
                params,
                n - 1,
            ).len());
        }
    }
}

proof fn lemma_example(map: AddressMap, example: Example)
    ensures
        example_complaint(map, example) is None <==> example_holds(map, example),
{
}

#[verifier::spinoff_prover]
#[verifier::rlimit(40)]
proof fn lemma_example_problems(map: AddressMap, n: int)
    requires
        0 <= n <= map.examples@.len(),
    ensures
        example_problems(map, n).len() == 0 <==> forall|k: int|
            0 <= k < n ==> example_holds(map, #[trigger] map.examples@[k]),
    decreases n,
{
    if n > 0 {
        lemma_example_problems(map, n - 1);
        lemma_example(map, map.examples@[n - 1]);
    }
}

proof fn lemma_device_problems(device: Device)
    ensures
        device_problems(device).len() == 0 <==> device_fits(device),
{
    sysex::lemma_first_wide(device.model_id@);
    sysex::lemma_first_wide(device.identity_family@);
    sysex::lemma_first_wide(device.identity_member@);
}

proof fn lemma_params_fit(params: Seq<Param>)
    ensures
        param_problems(params, params.len() as int).len() == 0 <==> params_fit(params),
{
    lemma_param_problems(params, params.len() as int);
    if param_problems(params, params.len() as int).len() == 0 {
        assert forall|i: int, j: int| 0 <= i < j < params.len() implies are_apart(
            #[trigger] params[i],
            #[trigger] params[j],
        ) by {
            assert(is_sound(params, params[j]));
            assert(stands_alone(params, j));
        }
    } else if params_fit(params) {
        assert forall|i: int| 0 <= i < params.len() implies stands_alone(params, i) && is_sound(
            params,
            #[trigger] params[i],
        ) by {}
    }
}

/// A map is reported as free of problems exactly where it is consistent.
#[verifier::spinoff_prover]
pub proof fn law_no_problems_means_consistent(map: AddressMap)
    ensures
        problems(map).len() == 0 <==> consistent(map),
{
    lemma_device_problems(map.device);
    lemma_params_fit(map.params@);
    lemma_example_problems(map, map.examples@.len() as int);
}

/// In a consistent map an address belongs to one parameter: whichever claims it
/// is found there, and a name finds its parameter.
pub proof fn law_consistent_map_is_unambiguous(map: AddressMap, i: int, addr: Seq<u8>)
    requires
        consistent(map),
        0 <= i < map.params@.len(),
    ensures
        named(map.params@, map.params@[i].name@) == Some(map.params@[i]),
        claims(map.params@[i], addr) ==> located(map.params@, addr) == Some(map.params@[i]),
{
    let params = map.params@;
    let param = params[i];
    lemma_named(params, param.name@);
    if let Some(p) = named(params, param.name@) {
        let j = choose|j: int| 0 <= j < params.len() && params[j] == p;
        if j < i {
            assert(are_apart(params[j], params[i]));
        } else if i < j {
            assert(are_apart(params[i], params[j]));
        }
    }
    if claims(param, addr) {
        lemma_located(params, addr);
        if let Some(p) = located(params, addr) {
            let j = choose|j: int| 0 <= j < params.len() && params[j] == p;
            assert(claims(params[j], addr));
            if j < i {
                assert(are_apart(params[j], params[i]));
            } else if i < j {
                assert(are_apart(params[i], params[j]));
            }
        }
    }
}

proof fn lemma_located(params: Seq<Param>, addr: Seq<u8>)
    ensures
        match located(params, addr) {
            Some(p) => claims(p, addr) && params.contains(p),
            None => forall|i: int| 0 <= i < params.len() ==> !claims(#[trigger] params[i], addr),
        },
{
    lemma_read_at(params, addr);
    lemma_written_at(params, addr);
}

proof fn lemma_read_at(params: Seq<Param>, addr: Seq<u8>)
    ensures
        match read_at(params, addr) {
            Some(p) => address_option(p.read_address) == Some(addr) && params.contains(p),
            None => forall|i: int|
                0 <= i < params.len() ==> address_option((#[trigger] params[i]).read_address)
                    != Some(addr),
        },
    decreases params.len(),
{
    if params.len() > 0 {
        let before = params.drop_last();
        lemma_read_at(before, addr);
        match read_at(before, addr) {
            Some(p) => {
                let i = choose|i: int| 0 <= i < before.len() && before[i] == p;
                assert(params[i] == p);
            },
            None => {
                assert forall|i: int| 0 <= i < params.len() - 1 implies address_option(
                    (#[trigger] params[i]).read_address,
                ) != Some(addr) by {
                    assert(before[i] == params[i]);
                }
                assert(params[params.len() - 1] == params.last());
            },
        }
    }
}

proof fn lemma_written_at(params: Seq<Param>, addr: Seq<u8>)
    ensures
        match written_at(params, addr) {
            Some(p) => address_option(p.write_address) == Some(addr) && params.contains(p),
            None => forall|i: int|
                0 <= i < params.len() ==> address_option((#[trigger] params[i]).write_address)
                    != Some(addr),
        },
    decreases params.len(),
{
    if params.len() > 0 {
        let before = params.drop_last();
        lemma_written_at(before, addr);
        match written_at(before, addr) {
            Some(p) => {
                let i = choose|i: int| 0 <= i < before.len() && before[i] == p;
                assert(params[i] == p);
            },
            None => {
                assert forall|i: int| 0 <= i < params.len() - 1 implies address_option(
                    (#[trigger] params[i]).write_address,
                ) != Some(addr) by {
                    assert(before[i] == params[i]);
                }
                assert(params[params.len() - 1] == params.last());
            },
        }
    }
}

/// What a value is encoded to are data bytes that decode to the value.
pub proof fn law_encoded_value_reads_back(encoding: Encoding, value: ValueView)
    ensures
        encoding.encoded(value) matches Some(bytes) ==> encoding.decoded(bytes) == Some(value)
            && sysex::all_seven_bit(bytes),
{
    if let Some(bytes) = encoding.encoded(value) {
        if encoding == Encoding::U14 {
            assert(bytes[0] * 128 + bytes[1] == value->Num_0);
        }
    }
}

/// Data bytes that decode to a value are what the value is encoded to.
pub proof fn law_decoded_bytes_write_back(encoding: Encoding, bytes: Seq<u8>)
    requires
        sysex::all_seven_bit(bytes),
    ensures
        encoding.decoded(bytes) matches Some(value) ==> encoding.encoded(value) == Some(bytes),
{
    match encoding {
        Encoding::U7 => if bytes.len() == 1 {
            assert(bytes[0] <= 0x7F);
            assert(seq![bytes[0]] =~= bytes);
        },
        Encoding::U14 => if bytes.len() == 2 {
            assert(bytes[0] <= 0x7F && bytes[1] <= 0x7F);
            let v = (bytes[0] * 128 + bytes[1]) as u32;
            assert(v / 128 == bytes[0] && v % 128 == bytes[1]);
            assert(seq![bytes[0], bytes[1]] =~= bytes);
        },
        Encoding::Raw => {},
    }
}

/// A value that a parameter takes is written in data bytes, as many as the
/// parameter has, and the parameter reads it back from them.
pub proof fn law_accepted_value_reads_back(param: Param, value: ValueView)
    requires
        param.objection(value) is None,
    ensures
        param.encoded(value) matches Some(bytes) && bytes.len() == param.size
            && sysex::all_seven_bit(bytes) && param.decoded(bytes) == Some(value),
{
    law_encoded_value_reads_back(param.encoding, value);
}

/// In a consistent map a parameter takes every value that it has a label for.
pub proof fn law_labelled_value_is_accepted(map: AddressMap, i: int, n: u32)
    requires
        consistent(map),
        0 <= i < map.params@.len(),
        map.params@[i].labels@.contains_key(n),
    ensures
        map.params@[i].objection(ValueView::Num(n)) is None,
{
    let param = map.params@[i];
    assert(is_sound(map.params@, param));
    assert(!param.labels@.is_empty());
}

/// In a consistent map a parameter with a range takes every number in it, and no
/// other.
pub proof fn law_number_in_range_is_accepted(map: AddressMap, i: int, n: u32)
    requires
        consistent(map),
        0 <= i < map.params@.len(),
        map.params@[i].range is Some,
    ensures
        map.params@[i].objection(ValueView::Num(n)) is None <==> map.params@[i].range->0.min <= n
            <= map.params@[i].range->0.max,
{
    let param = map.params@[i];
    assert(is_sound(map.params@, param));
}

/// In a consistent map a parameter with neither range nor labels takes every
/// number that its encoding can carry, and no other.
pub proof fn law_free_number_is_accepted(map: AddressMap, i: int, n: u32)
    requires
        consistent(map),
        0 <= i < map.params@.len(),
        map.params@[i].range is None,
        map.params@[i].labels@.is_empty(),
    ensures
        map.params@[i].objection(ValueView::Num(n)) is None <==> (
        map.params@[i].encoding.largest() matches Some(most) && n <= most),
{
    let param = map.params@[i];
    assert(is_sound(map.params@, param));
}

/// A label stands for the smallest value that has it, and for none where no
/// value has it.
pub proof fn law_label_stands_for_its_value(labels: Map<u32, String>, label: Seq<char>)
    ensures
        match first_labelled(listing(labels), label) {
            Some(v) => labels.contains_key(v) && labels[v]@ == label && forall|k: u32| #[trigger]
                labels.contains_key(k) && labels[k]@ == label ==> v <= k,
            None => forall|k: u32| #[trigger] labels.contains_key(k) ==> labels[k]@ != label,
        },
{
    let list = listing(labels);
    lemma_listing(labels);
    lemma_first_labelled(list, label);
    assert forall|k: u32| #[trigger] labels.contains_key(k) && labels[k]@ == label implies exists|
        i: int,
    | 0 <= i < list.len() && (#[trigger] list[i]) == (k, label) by {
        let i = choose|i: int| 0 <= i < list.len() && (#[trigger] list[i]).0 == k;
        assert(list[i] == (k, label));
    }
    match first_labelled(list, label) {
        Some(v) => {
            let n = choose|n: int|
                0 <= n < list.len() && #[trigger] list[n] == (v, label) && forall|i: int|
                    0 <= i < n ==> (#[trigger] list[i]).1 != label;
            assert forall|k: u32| #[trigger]
                labels.contains_key(k) && labels[k]@ == label implies v <= k by {
                let i = choose|i: int| 0 <= i < list.len() && (#[trigger] list[i]) == (k, label);
                assert(n <= i);
                if n < i {
                    assert(list[n].0 < list[i].0);
                }
            }
        },
        None => {},
    }
}

proof fn lemma_first_labelled(list: Seq<(u32, Seq<char>)>, label: Seq<char>)
    ensures
        match first_labelled(list, label) {
            Some(v) => exists|n: int|
                0 <= n < list.len() && #[trigger] list[n] == (v, label) && forall|i: int|
                    0 <= i < n ==> (#[trigger] list[i]).1 != label,
            None => forall|i: int| 0 <= i < list.len() ==> (#[trigger] list[i]).1 != label,
        },
    decreases list.len(),
{
    if list.len() > 0 {
        let before = list.drop_last();
        lemma_first_labelled(before, label);
        match first_labelled(before, label) {
            Some(v) => {
                let n = choose|n: int|
                    0 <= n < before.len() && #[trigger] before[n] == (v, label) && forall|i: int|
                        0 <= i < n ==> (#[trigger] before[i]).1 != label;
                assert(list[n] == (v, label));
                assert forall|i: int| 0 <= i < n implies (#[trigger] list[i]).1 != label by {
                    assert(before[i] == list[i]);
                }
            },
            None => {
                assert forall|i: int| 0 <= i < list.len() - 1 implies (#[trigger] list[i]).1
                    != label by {
                    assert(before[i] == list[i]);
                }
                let n = list.len() - 1;
                if list.last().1 == label {
                    assert(list[n] == (list.last().0, label));
                }
            },
        }
    }
}

/// Numbers are written most significant byte first, seven bits to a byte; raw values
/// are their bytes.
pub proof fn law_bytes_spell_the_number(encoding: Encoding, bytes: Seq<u8>, n: u32)
    ensures
        encoding.decoded(bytes) == Some(ValueView::Num(n)) <==> match encoding {
            Encoding::U7 => bytes.len() == 1 && bytes[0] == n,
            Encoding::U14 => bytes.len() == 2 && 128 * bytes[0] + bytes[1] == n,
            Encoding::Raw => false,
        },
        (encoding is Raw) == (encoding.decoded(bytes) == Some(ValueView::Raw(bytes))),
        encoding.encoded(ValueView::Num(n)) == Some(bytes) <==> match encoding {
            Encoding::U7 => bytes.len() == 1 && bytes[0] == n && n < 128,
            Encoding::U14 => bytes.len() == 2 && bytes[0] < 128 && bytes[1] < 128 && 128 * bytes[0]
                + bytes[1] == n,
            Encoding::Raw => false,
        },
        encoding.encoded(ValueView::Raw(bytes)) is Some <==> encoding is Raw && forall|i: int|
            0 <= i < bytes.len() ==> #[trigger] bytes[i] < 128,
        encoding.encoded(ValueView::Raw(bytes)) matches Some(same) ==> same == bytes,
{
    match encoding {
        Encoding::U7 => {
            if bytes.len() == 1 {
                assert(bytes =~= seq![bytes[0]]);
            }
        },
        Encoding::U14 => {
            if bytes.len() == 2 {
                assert(bytes =~= seq![bytes[0], bytes[1]]);
                if bytes[0] < 128 && bytes[1] < 128 && 128 * bytes[0] + bytes[1] == n {
                    assert(n / 128 == bytes[0] && n % 128 == bytes[1]);
                }
            }
        },
        Encoding::Raw => {},
    }
}

/// A parameter reads and writes exactly as many bytes as its size says, and as its
/// encoding does.
pub proof fn law_parameter_keeps_to_its_size(param: Param, bytes: Seq<u8>, value: ValueView)
    ensures
        param.decoded(bytes) == Some(value) <==> bytes.len() == param.size
            && param.encoding.decoded(bytes) == Some(value),
        param.encoded(value) == Some(bytes) <==> bytes.len() == param.size
            && param.encoding.encoded(value) == Some(bytes),
{
}

/// The label of a number is the one that the map gives it; nothing else has one.
pub proof fn law_label_is_the_maps(param: Param, value: ValueView)
    ensures
        match param.label_of(value) {
            Some(label) => value matches ValueView::Num(n) && param.labels@.contains_key(n)
                && param.labels@[n]@ == label,
            None => value matches ValueView::Num(n) ==> !param.labels@.contains_key(n),
        },
{
}

/// A parameter takes a number exactly where it is in the range, or without a range
/// has a label, or there are no labels, and the encoding carries it in as many bytes
/// as the parameter has. It takes bytes exactly where it is raw and they are as many
/// data bytes as it has.
pub proof fn law_what_a_parameter_takes(param: Param, n: u32, bytes: Seq<u8>)
    ensures
        param.objection(ValueView::Num(n)) is None <==> {
            &&& match param.range {
                Some(range) => range.min <= n <= range.max,
                None => param.labels@.contains_key(n) || forall|k: u32|
                    !#[trigger] param.labels@.contains_key(k),
            }
            &&& (param.encoding is U7 && n < 128 && param.size == 1) || (param.encoding is U14 && n
                < 16384 && param.size == 2)
        },
        param.objection(ValueView::Raw(bytes)) is None <==> param.encoding is Raw && bytes.len()
            == param.size && forall|i: int| 0 <= i < bytes.len() ==> #[trigger] bytes[i] < 128,
{
    sysex::lemma_first_wide(bytes);
    if param.labels@.is_empty() {
        assert forall|k: u32| !#[trigger] param.labels@.contains_key(k) by {
            assert(!param.labels@.dom().contains(k));
        }
    } else if forall|k: u32| !#[trigger] param.labels@.contains_key(k) {
        assert(param.labels@.dom() =~= Set::empty());
    }
}

/// A name finds the first parameter that has it, and nothing where none has.
pub proof fn law_name_finds_the_first(params: Seq<Param>, name: Seq<char>)
    ensures
        match named(params, name) {
            Some(p) => exists|i: int|
                0 <= i < params.len() && #[trigger] params[i] == p && params[i].name@ == name
                    && forall|j: int| 0 <= j < i ==> (#[trigger] params[j]).name@ != name,
            None => forall|i: int| 0 <= i < params.len() ==> (#[trigger] params[i]).name@ != name,
        },
    decreases params.len(),
{
    if params.len() > 0 {
        let before = params.drop_last();
        law_name_finds_the_first(before, name);
        match named(before, name) {
            Some(p) => {
                let i = choose|i: int|
                    0 <= i < before.len() && #[trigger] before[i] == p && before[i].name@ == name
                        && forall|j: int| 0 <= j < i ==> (#[trigger] before[j]).name@ != name;
                assert(params[i] == p);
                assert forall|j: int| 0 <= j < i implies (#[trigger] params[j]).name@ != name by {
                    assert(before[j] == params[j]);
                }
            },
            None => {
                assert forall|j: int| 0 <= j < params.len() - 1 implies (
                #[trigger] params[j]).name@ != name by {
                    assert(before[j] == params[j]);
                }
                assert(params[params.len() - 1] == params.last());
            },
        }
    }
}

proof fn lemma_first_read_at(params: Seq<Param>, addr: Seq<u8>) -> (i: int)
    requires
        read_at(params, addr) is Some,
    ensures
        0 <= i < params.len(),
        read_at(params, addr) == Some(params[i]),
        address_option(params[i].read_address) == Some(addr),
        forall|j: int|
            0 <= j < i ==> address_option((#[trigger] params[j]).read_address) != Some(addr),
    decreases params.len(),
{
    let before = params.drop_last();
    let i = if read_at(before, addr) is Some {
        lemma_first_read_at(before, addr)
    } else {
        params.len() - 1
    };
    lemma_read_at(before, addr);
    assert forall|j: int| 0 <= j < i implies address_option((#[trigger] params[j]).read_address)
        != Some(addr) by {
        assert(before[j] == params[j]);
    }
    i
}

proof fn lemma_first_written_at(params: Seq<Param>, addr: Seq<u8>) -> (i: int)
    requires
        written_at(params, addr) is Some,
    ensures
        0 <= i < params.len(),
        written_at(params, addr) == Some(params[i]),
        address_option(params[i].write_address) == Some(addr),
        forall|j: int|
            0 <= j < i ==> address_option((#[trigger] params[j]).write_address) != Some(addr),
    decreases params.len(),
{
    let before = params.drop_last();
    let i = if written_at(before, addr) is Some {
        lemma_first_written_at(before, addr)
    } else {
        params.len() - 1
    };
    lemma_written_at(before, addr);
    assert forall|j: int| 0 <= j < i implies address_option((#[trigger] params[j]).write_address)
        != Some(addr) by {
        assert(before[j] == params[j]);
    }
    i
}

/// An address finds the first parameter that is read there; where none is, the first
/// that is written there; and nothing where it is neither. `i` is where it stands.
pub proof fn law_address_finds_the_reader_first(params: Seq<Param>, addr: Seq<u8>) -> (i: int)
    ensures
        located(params, addr) is Some <==> 0 <= i < params.len(),
        located(params, addr) is Some ==> located(params, addr) == Some(params[i]),
        located(params, addr) is Some ==> is_at(params[i].read_address, addr) || is_at(
            params[i].write_address,
            addr,
        ),
        forall|j: int|
            0 <= j < params.len() && is_at((#[trigger] params[j]).read_address, addr) ==> 0 <= i <= j
                && is_at(params[i].read_address, addr),
        forall|j: int|
            0 <= j < params.len() && is_at((#[trigger] params[j]).write_address, addr) ==> 0 <= i && (
            i <= j || is_at(params[i].read_address, addr)),
{
    lemma_read_at(params, addr);
    lemma_written_at(params, addr);
    if read_at(params, addr) is Some {
        lemma_first_read_at(params, addr)
    } else if written_at(params, addr) is Some {
        lemma_first_written_at(params, addr)
    } else {
        -1
    }
}

/// Whether an address is there and is this one.
pub open spec fn is_at(a: Option<Address>, addr: Seq<u8>) -> bool {
    a is Some && a->0@ == addr
}

/// A parameter is there to be read exactly where its name finds it and it has a read
/// address.
pub proof fn law_readable_has_a_read_address(params: Seq<Param>, name: Seq<char>)
    ensures
        match readable_named(params, name) {
            Ok(p) => p.read_address is Some && p.name@ == name && params.contains(p),
            Err(_) => forall|i: int|
                0 <= i < params.len() && (#[trigger] params[i]).name@ == name
                    && params[i].read_address is Some ==> exists|j: int|
                    0 <= j < i && (#[trigger] params[j]).name@ == name && params[j].read_address is None,
        },
{
    law_name_finds_the_first(params, name);
    if let Some(p) = named(params, name) {
        let k = choose|i: int|
            0 <= i < params.len() && #[trigger] params[i] == p && params[i].name@ == name
                && forall|j: int| 0 <= j < i ==> (#[trigger] params[j]).name@ != name;
        assert(params.contains(params[k]));
        if p.read_address is None {
            assert forall|i: int|
                0 <= i < params.len() && (#[trigger] params[i]).name@ == name
                    && params[i].read_address is Some implies exists|j: int|
                0 <= j < i && (#[trigger] params[j]).name@ == name && params[j].read_address is None by {
                assert(k < i);
                assert(params[k].name@ == name);
            }
        }
    }
}

/// A value in words can be read back: a number without a label is the number, one
/// with a label is the label and then the number in brackets, and a raw value is its
/// bytes as hexadecimal.
pub proof fn law_shown_value_reads_back(param: Param, n: u32, bytes: Seq<u8>)
    ensures
        !param.labels@.contains_key(n) ==> text::number(param.shown(ValueView::Num(n))) == n,
        param.labels@.contains_key(n) ==> {
            let label = param.labels@[n]@;
            let words = param.shown(ValueView::Num(n));
            &&& label.is_prefix_of(words)
            &&& words[label.len() as int] == ' ' && words[label.len() as int + 1] == '(' && words.last()
                == ')'
            &&& text::number(words.subrange(label.len() as int + 2, words.len() - 1)) == n
        },
        bytes.len() > 0 ==> hex::parsed_hex_field(param.shown(ValueView::Raw(bytes))) == Ok::<
            Seq<u8>,
            Seq<char>,
        >(bytes),
{
    text::law_padded_number_reads_back(n as int, 1);
    if bytes.len() > 0 {
        hex::law_spaced_hex_reads_back(bytes);
    }
    if param.labels@.contains_key(n) {
        reveal_strlit(" (");
        reveal_strlit(")");
        let label = param.labels@[n]@;
        let words = param.shown(ValueView::Num(n));
        assert(words.subrange(label.len() as int + 2, words.len() - 1) =~= text::dec(n as nat));
    }
}

/// A field spells a byte exactly where it spells one byte and no more.
pub proof fn law_hex_byte_is_one_byte(s: Seq<char>, b: u8)
    ensures
        parsed_hex_byte(s) == Ok::<u8, Seq<char>>(b) <==> hex::parsed_hex_field(s) == Ok::<
            Seq<u8>,
            Seq<char>,
        >(seq![b]),
{
    if let Ok(bytes) = hex::parsed_hex_field(s) {
        if bytes.len() == 1 {
            assert(bytes =~= seq![bytes[0]]);
        }
    }
}

proof fn lemma_some_label(labels: Map<u32, String>)
    requires
        !labels.is_empty(),
    ensures
        exists|v: u32| #[trigger] labels.contains_key(v),
{
    if forall|v: u32| !#[trigger] labels.contains_key(v) {
        assert(labels.dom() =~= Set::empty());
    }
}

/// What a map without problems promises of its device and of each parameter, taken
/// by itself.
pub proof fn law_clean_map_has_sound_parts(map: AddressMap, i: int)
    requires
        problems(map).len() == 0,
    ensures
        map.schema@ == "roland-sysex-map/v0"@,
        map.device.model_id@.len() > 0,
        map.device.identity_family@.len() == 2,
        map.device.identity_member@.len() == 2,
        forall|k: int|
            0 <= k < map.device.model_id@.len() ==> #[trigger] map.device.model_id@[k] < 128,
        forall|k: int| 0 <= k < 2 ==> #[trigger] map.device.identity_family@[k] < 128,
        forall|k: int| 0 <= k < 2 ==> #[trigger] map.device.identity_member@[k] < 128,
        map.device.device_id_default < 128,
        map.params@.len() > 0,
        0 <= i < map.params@.len() ==> {
            let p = map.params@[i];
            &&& p.name@.len() > 0 && 'a' <= p.name@[0] <= 'z'
            &&& forall|k: int|
                0 <= k < p.name@.len() ==> ('a' <= #[trigger] p.name@[k] <= 'z') || ('0'
                    <= p.name@[k] <= '9') || p.name@[k] == '_'
            &&& p.read_address is Some || p.write_address is Some
            &&& 1 <= p.size <= 16
            &&& p.encoding is U7 ==> p.size == 1
            &&& p.encoding is U14 ==> p.size == 2
            &&& p.encoding is Raw ==> p.range is None && forall|k: u32|
                !#[trigger] p.labels@.contains_key(k)
            &&& forall|k: u32| #[trigger]
                p.labels@.contains_key(k) ==> k < (if p.encoding is U7 {
                    128int
                } else {
                    16384
                }) && (p.range matches Some(r) ==> r.min <= k <= r.max)
            &&& forall|j: u32, k: u32| #[trigger]
                p.labels@.contains_key(j) && #[trigger] p.labels@.contains_key(k) && j != k
                    ==> p.labels@[j]@ != p.labels@[k]@
            &&& p.range matches Some(r) ==> r.min <= r.max && r.max < (if p.encoding is U7 {
                128int
            } else {
                16384
            })
            &&& p.verify_with matches Some(partner) ==> {
                &&& p.read_address is None
                &&& exists|v: u32| #[trigger] p.labels@.contains_key(v)
                &&& exists|k: int|
                    0 <= k < map.params@.len() && (#[trigger] map.params@[k]).name@ == partner@
                        && map.params@[k].read_address is Some && exists|v: u32| #[trigger]
                        map.params@[k].labels@.contains_key(v)
            }
            &&& forall|k: int|
                0 <= k < p.verified@.len() ==> calendar::iso_date(
                    (#[trigger] p.verified@[k]).date@,
                ) && exists|c: int|
                    0 <= c < p.verified@[k].firmware@.len() && !text::white_space(
                        #[trigger] p.verified@[k].firmware@[c],
                    )
        },
{
    law_no_problems_means_consistent(map);
    if 0 <= i < map.params@.len() {
        let p = map.params@[i];
        assert(is_sound(map.params@, p));
        if p.encoding is Raw {
            assert forall|k: u32| !#[trigger] p.labels@.contains_key(k) by {
                assert(!p.labels@.dom().contains(k));
            }
        }
        if let Some(partner) = p.verify_with {
            law_name_finds_the_first(map.params@, partner@);
            let target = named(map.params@, partner@)->0;
            let k = choose|k: int|
                0 <= k < map.params@.len() && #[trigger] map.params@[k] == target
                    && map.params@[k].name@ == partner@;
            assert(map.params@[k].read_address is Some);
            lemma_some_label(target.labels@);
            lemma_some_label(p.labels@);
        }
        assert forall|k: int| 0 <= k < p.verified@.len() implies calendar::iso_date(
            (#[trigger] p.verified@[k]).date@,
        ) && exists|c: int|
            0 <= c < p.verified@[k].firmware@.len() && !text::white_space(
                #[trigger] p.verified@[k].firmware@[c],
            ) by {
            assert(is_confirmation(p.verified@[k]));
        }
    }
}

/// In a map without problems no two parameters share a name or an address.
pub proof fn law_clean_map_keeps_parameters_apart(map: AddressMap, i: int, j: int)
    requires
        problems(map).len() == 0,
        0 <= i < j < map.params@.len(),
    ensures
        ({
            let (a, b) = (map.params@[i], map.params@[j]);
            &&& a.name@ != b.name@
            &&& !(a.read_address is Some && b.read_address is Some && a.read_address->0@
                == b.read_address->0@)
            &&& !(a.read_address is Some && b.write_address is Some && a.read_address->0@
                == b.write_address->0@)
            &&& !(a.write_address is Some && b.read_address is Some && a.write_address->0@
                == b.read_address->0@)
            &&& !(a.write_address is Some && b.write_address is Some && a.write_address->0@
                == b.write_address->0@)
        }),
{
    law_no_problems_means_consistent(map);
    let (a, b) = (map.params@[i], map.params@[j]);
    assert(are_apart(a, b));
    if let Some(x) = a.read_address {
        assert(claims(a, x@));
    }
    if let Some(x) = a.write_address {
        assert(claims(a, x@));
    }
}

/// In a map without problems every example is a frame of this device that writes or
/// reads as many bytes as the parameter has at whose address it does.
pub proof fn law_clean_map_has_true_examples(map: AddressMap, k: int)
    requires
        problems(map).len() == 0,
        0 <= k < map.examples@.len(),
    ensures
        hex::parsed_hex_field(map.examples@[k].frame@) matches Ok(bytes) && (match sysex::decoded_frame(
            map.device.model_id@,
            bytes,
        ) {
            Ok(sysex::IncomingView::Dt1 { addr, data, .. }) => exists|i: int|
                0 <= i < map.params@.len() && claims(#[trigger] map.params@[i], addr)
                    && map.params@[i].size == data.len(),
            Ok(sysex::IncomingView::Rq1 { addr, size, .. }) => exists|i: int|
                0 <= i < map.params@.len() && claims(#[trigger] map.params@[i], addr)
                    && map.params@[i].size == size,
            _ => false,
        }),
{
    law_no_problems_means_consistent(map);
    let example = map.examples@[k];
    assert(example_holds(map, example));
    let bytes = hex::parsed_hex_field(example.frame@)->Ok_0;
    match sysex::decoded_frame(map.device.model_id@, bytes) {
        Ok(sysex::IncomingView::Dt1 { addr, data, .. }) => {
            lemma_located(map.params@, addr);
            let p = located(map.params@, addr)->0;
            let i = choose|i: int| 0 <= i < map.params@.len() && map.params@[i] == p;
            assert(claims(map.params@[i], addr));
        },
        Ok(sysex::IncomingView::Rq1 { addr, size, .. }) => {
            lemma_located(map.params@, addr);
            let p = located(map.params@, addr)->0;
            let i = choose|i: int| 0 <= i < map.params@.len() && map.params@[i] == p;
            assert(claims(map.params@[i], addr));
        },
        _ => {},
    }
}

/// A parameter that names another to be verified with is in order exactly where it
/// cannot be read itself, the parameter of that name can, and both have labels.
pub proof fn law_partner_can_be_read(params: Seq<Param>, param: Param)
    ensures
        partner_complaints(params, param).len() == 0 <==> (param.verify_with matches Some(partner)
            ==> {
            &&& param.read_address is None
            &&& exists|v: u32| #[trigger] param.labels@.contains_key(v)
            &&& named(params, partner@) matches Some(target) && target.read_address is Some && exists|
                v: u32,
            | #[trigger] target.labels@.contains_key(v)
        }),
{
    lemma_labels_or_none(param.labels@);
    if let Some(partner) = param.verify_with {
        if let Some(target) = named(params, partner@) {
            lemma_labels_or_none(target.labels@);
        }
    }
}

pub(crate) proof fn lemma_labels_or_none(labels: Map<u32, String>)
    ensures
        labels.is_empty() <==> !exists|v: u32| #[trigger] labels.contains_key(v),
{
    if labels.is_empty() {
        assert forall|v: u32| !#[trigger] labels.contains_key(v) by {
            assert(!labels.dom().contains(v));
        }
    } else {
        lemma_some_label(labels);
    }
}

/// A parameter's size is in order exactly where it is 1 to 16 bytes, and one byte for
/// numbers of seven bits, two for numbers of fourteen.
pub proof fn law_size_fits_the_encoding(param: Param)
    ensures
        size_complaints(param).len() == 0 <==> 1 <= param.size <= 16 && (param.encoding is U7
            ==> param.size == 1) && (param.encoding is U14 ==> param.size == 2),
{
}

/// The labels and the range of a parameter are in order exactly where a raw one has
/// neither, no two values share a label, and every label and the whole range is within
/// what the encoding carries, every label also within the range.
pub proof fn law_labels_fit_the_encoding(param: Param)
    ensures
        value_complaints(param).len() == 0 <==> {
            let most = if param.encoding is U7 {
                127int
            } else {
                16383
            };
            if param.encoding is Raw {
                param.range is None && forall|k: u32| !#[trigger] param.labels@.contains_key(k)
            } else {
                &&& forall|k: u32| #[trigger]
                    param.labels@.contains_key(k) ==> k <= most && (param.range matches Some(r)
                        ==> r.min <= k <= r.max)
                &&& forall|j: u32, k: u32| #[trigger]
                    param.labels@.contains_key(j) && #[trigger] param.labels@.contains_key(k) && j
                        != k ==> param.labels@[j]@ != param.labels@[k]@
                &&& param.range matches Some(r) ==> r.min <= r.max <= most
            }
        },
{
    lemma_values_fit(param);
    if param.labels@.is_empty() {
        assert forall|k: u32| !#[trigger] param.labels@.contains_key(k) by {
            assert(!param.labels@.dom().contains(k));
        }
    } else {
        lemma_some_label(param.labels@);
    }
}

/// A parameter's place is in order exactly where its name is an identifier that no
/// earlier parameter has, it has an address, and no earlier parameter is read or
/// written at one of its addresses.
pub proof fn law_place_is_its_own(params: Seq<Param>, i: int)
    requires
        0 <= i < params.len(),
    ensures
        place_complaints(params, i).len() == 0 <==> {
            let name = params[i].name@;
            &&& name.len() > 0 && 'a' <= name[0] <= 'z'
            &&& forall|k: int|
                0 <= k < name.len() ==> ('a' <= #[trigger] name[k] <= 'z') || ('0' <= name[k]
                    <= '9') || name[k] == '_'
            &&& params[i].read_address is Some || params[i].write_address is Some
            &&& forall|j: int|
                0 <= j < i ==> (#[trigger] params[j]).name@ != name && !share_an_address(
                    params[j],
                    params[i],
                )
        },
{
    lemma_place(params, i);
    let param = params[i];
    assert forall|j: int| 0 <= j < i implies are_apart(#[trigger] params[j], param) == (
    params[j].name@ != param.name@ && !share_an_address(params[j], param)) by {
        let other = params[j];
        if share_an_address(other, param) {
            let addr = if other.read_address is Some && claims(param, other.read_address->0@) {
                other.read_address->0@
            } else {
                other.write_address->0@
            };
            assert(claims(other, addr) && claims(param, addr));
        }
    }
    if place_complaints(params, i).len() == 0 {
        assert forall|j: int| 0 <= j < i implies (#[trigger] params[j]).name@ != param.name@
            && !share_an_address(params[j], param) by {
            assert(are_apart(params[j], param));
        }
    } else if forall|j: int|
        0 <= j < i ==> (#[trigger] params[j]).name@ != param.name@ && !share_an_address(
            params[j],
            param,
        ) {
        assert forall|j: int| 0 <= j < i implies are_apart(#[trigger] params[j], param) by {}
        assert(stands_alone(params, i));
    }
}

/// Whether two parameters are read or written at a common address.
pub open spec fn share_an_address(a: Param, b: Param) -> bool {
    ||| a.read_address is Some && b.read_address is Some && a.read_address->0@
        == b.read_address->0@
    ||| a.read_address is Some && b.write_address is Some && a.read_address->0@
        == b.write_address->0@
    ||| a.write_address is Some && b.read_address is Some && a.write_address->0@
        == b.read_address->0@
    ||| a.write_address is Some && b.write_address is Some && a.write_address->0@
        == b.write_address->0@
}

/// Confirmations are in order exactly where each has a day of the calendar and a
/// firmware that is not blank.
pub proof fn law_confirmations_say_when_and_on_what(verified: Seq<Verification>)
    ensures
        verified_complaints(verified).len() == 0 <==> forall|k: int|
            0 <= k < verified.len() ==> calendar::iso_date((#[trigger] verified[k]).date@)
                && exists|c: int|
                0 <= c < verified[k].firmware@.len() && !text::white_space(
                    #[trigger] verified[k].firmware@[c],
                ),
{
    lemma_verified(verified);
    assert forall|k: int| 0 <= k < verified.len() implies is_confirmation(#[trigger] verified[k])
        == (calendar::iso_date(verified[k].date@) && exists|c: int|
        0 <= c < verified[k].firmware@.len() && !text::white_space(
            #[trigger] verified[k].firmware@[c],
        )) by {}
    if verified_complaints(verified).len() == 0 {
        assert forall|k: int| 0 <= k < verified.len() implies calendar::iso_date(
            (#[trigger] verified[k]).date@,
        ) && exists|c: int|
            0 <= c < verified[k].firmware@.len() && !text::white_space(
                #[trigger] verified[k].firmware@[c],
            ) by {
            assert(is_confirmation(verified[k]));
        }
    } else {
        let k = choose|k: int| 0 <= k < verified.len() && !is_confirmation(#[trigger] verified[k]);
        assert(!is_confirmation(verified[k]));
    }
}

/// A device is in order exactly where its model and both identity fields hold data
/// bytes only, the model at least one and the identity fields two each, and its ID is
/// one.
pub proof fn law_device_can_be_addressed(device: Device)
    ensures
        device_problems(device).len() == 0 <==> {
            &&& device.model_id@.len() > 0
            &&& device.identity_family@.len() == 2
            &&& device.identity_member@.len() == 2
            &&& device.device_id_default < 128
            &&& forall|k: int|
                0 <= k < device.model_id@.len() ==> #[trigger] device.model_id@[k] < 128
            &&& forall|k: int| 0 <= k < 2 ==> #[trigger] device.identity_family@[k] < 128
            &&& forall|k: int| 0 <= k < 2 ==> #[trigger] device.identity_member@[k] < 128
        },
{
    lemma_device_problems(device);
}

/// A map has no problems exactly where it is of this schema, its device is in order,
/// there are parameters, and no parameter and no example has anything wrong with it.
pub proof fn law_map_is_as_clean_as_its_parts(map: AddressMap)
    ensures
        problems(map).len() == 0 <==> {
            &&& map.schema@ == "roland-sysex-map/v0"@
            &&& device_problems(map.device).len() == 0
            &&& map.params@.len() > 0
            &&& forall|i: int|
                0 <= i < map.params@.len() ==> place_complaints(map.params@, i).len() == 0
                    && size_complaints(#[trigger] map.params@[i]).len() == 0 && value_complaints(
                    map.params@[i],
                ).len() == 0 && partner_complaints(map.params@, map.params@[i]).len() == 0
                    && verified_complaints(map.params@[i].verified@).len() == 0
            &&& forall|k: int|
                0 <= k < map.examples@.len() ==> example_complaint(map, #[trigger] map.examples@[k]) is None
        },
{
    lemma_parts_of_params(map.params@, map.params@.len() as int);
    lemma_parts_of_examples(map, map.examples@.len() as int);
}

proof fn lemma_five_empty(
    a: Seq<Seq<char>>,
    b: Seq<Seq<char>>,
    c: Seq<Seq<char>>,
    d: Seq<Seq<char>>,
    e: Seq<Seq<char>>,
)
    ensures
        (a + b + c + d + e).len() == 0 <==> a.len() == 0 && b.len() == 0 && c.len() == 0 && d.len()
            == 0 && e.len() == 0,
{
}

#[verifier::spinoff_prover]
proof fn lemma_no_complaints(params: Seq<Param>, i: int)
    ensures
        complaints(params, i).len() == 0 <==> place_complaints(params, i).len() == 0
            && size_complaints(params[i]).len() == 0 && value_complaints(params[i]).len() == 0
            && partner_complaints(params, params[i]).len() == 0 && verified_complaints(
            params[i].verified@,
        ).len() == 0,
{
    let param = params[i];
    lemma_five_empty(
        place_complaints(params, i),
        size_complaints(param),
        value_complaints(param),
        partner_complaints(params, param),
        verified_complaints(param.verified@),
    );
}

proof fn lemma_attributed_len(name: Seq<char>, messages: Seq<Seq<char>>)
    ensures
        attributed(name, messages).len() == messages.len(),
{
}

#[verifier::spinoff_prover]
proof fn lemma_uncomplained(params: Seq<Param>, n: int)
    requires
        0 <= n <= params.len(),
    ensures
        param_problems(params, n).len() == 0 <==> forall|i: int|
            0 <= i < n ==> (#[trigger] complaints(params, i)).len() == 0,
    decreases n,
{
    if n > 0 {
        lemma_uncomplained(params, n - 1);
        lemma_attributed_len(params[n - 1].name@, complaints(params, n - 1));
    }
}

#[verifier::spinoff_prover]
proof fn lemma_parts_of_params(params: Seq<Param>, n: int)
    requires
        0 <= n <= params.len(),
    ensures
        param_problems(params, n).len() == 0 <==> forall|i: int|
            0 <= i < n ==> place_complaints(params, i).len() == 0 && size_complaints(
                #[trigger] params[i],
            ).len() == 0 && value_complaints(params[i]).len() == 0 && partner_complaints(
                params,
                params[i],
            ).len() == 0 && verified_complaints(params[i].verified@).len() == 0,
{
    lemma_uncomplained(params, n);
    assert forall|i: int| 0 <= i < n implies ((#[trigger] complaints(params, i)).len() == 0 <==> (
    place_complaints(params, i).len() == 0 && size_complaints(params[i]).len() == 0
        && value_complaints(params[i]).len() == 0 && partner_complaints(params, params[i]).len()
        == 0 && verified_complaints(params[i].verified@).len() == 0)) by {
        lemma_no_complaints(params, i);
    }
    if param_problems(params, n).len() == 0 {
        assert forall|i: int| 0 <= i < n implies place_complaints(params, i).len() == 0
            && size_complaints(#[trigger] params[i]).len() == 0 && value_complaints(params[i]).len()
            == 0 && partner_complaints(params, params[i]).len() == 0 && verified_complaints(
            params[i].verified@,
        ).len() == 0 by {
            assert(complaints(params, i).len() == 0);
        }
    } else {
        let i = choose|i: int| 0 <= i < n && (#[trigger] complaints(params, i)).len() != 0;
        assert(params[i] == params[i]);
    }
}

#[verifier::spinoff_prover]
proof fn lemma_parts_of_examples(map: AddressMap, n: int)
    requires
        0 <= n <= map.examples@.len(),
    ensures
        example_problems(map, n).len() == 0 <==> forall|k: int|
            0 <= k < n ==> example_complaint(map, #[trigger] map.examples@[k]) is None,
    decreases n,
{
    if n > 0 {
        lemma_parts_of_examples(map, n - 1);
        assert(example_complaint(map, map.examples@[n - 1]) is None || example_complaint(
            map,
            map.examples@[n - 1],
        ) is Some);
    }
}

} // verus!
