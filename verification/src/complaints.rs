//! What a map is told to be wrong in: each fault once, and about what it is.

use crate::calendar;
use crate::hex;
use crate::map::{
    claimant, claims, complaints, device_problems, example_complaint, example_problems,
    first_outside, first_repeated, labels_text, lemma_listing, listing, located, named,
    param_problems, partner_complaints, place_complaints, problems, size_complaints,
    value_complaints, verified_complaints, AddressMap, Device, Encoding, Example, Method, Param,
    Source, ValueView, Verification,
};
use crate::sysex;
use crate::text;
use vstd::prelude::*;

verus! {

/// One where `cond` holds, else zero.
pub open spec fn one_if(cond: bool) -> nat {
    if cond {
        1
    } else {
        0
    }
}

/// A size has a fault where it is zero or above sixteen, and another where its encoding
/// takes so many bytes and no others.
pub proof fn law_faults_of_a_size(param: Param)
    ensures
        size_complaints(param).len() == one_if(param.size == 0 || param.size > 16) + one_if(
            (param.encoding is U7 && param.size != 1) || (param.encoding is U14 && param.size != 2),
        ),
{
}

/// A device has a fault for each field that is empty, for each that holds more than data
/// bytes, for each identity field that has not two bytes, and where its ID is no data
/// byte.
#[verifier::spinoff_prover]
pub proof fn law_faults_of_a_device(device: Device)
    ensures
        device_problems(device).len() == one_if(device.model_id@.len() == 0) + one_if(
            exists|k: int|
                0 <= k < device.model_id@.len() && #[trigger] device.model_id@[k] >= 128,
        ) + one_if(device.identity_family@.len() == 0) + one_if(
            exists|k: int|
                0 <= k < device.identity_family@.len() && #[trigger] device.identity_family@[k]
                    >= 128,
        ) + one_if(device.identity_member@.len() == 0) + one_if(
            exists|k: int|
                0 <= k < device.identity_member@.len() && #[trigger] device.identity_member@[k]
                    >= 128,
        ) + one_if(device.identity_family@.len() != 2) + one_if(device.identity_member@.len() != 2)
            + one_if(device.device_id_default >= 128),
{
    lemma_wide(device.model_id@);
    lemma_wide(device.identity_family@);
    lemma_wide(device.identity_member@);
}

proof fn lemma_wide(bytes: Seq<u8>)
    ensures
        sysex::first_wide(bytes) is Some <==> exists|k: int|
            0 <= k < bytes.len() && #[trigger] bytes[k] >= 128,
{
    sysex::lemma_first_wide(bytes);
    if let Some(b) = sysex::first_wide(bytes) {
        let k = choose|k: int| 0 <= k < bytes.len() && bytes[k] == b;
        assert(bytes[k] >= 128);
    }
}

/// A partner is a fault where the parameter can be read itself; and another where no
/// parameter has the partner's name, or it cannot be read, or one of the two has no
/// labels.
pub proof fn law_faults_of_a_partner(params: Seq<Param>, param: Param)
    ensures
        param.verify_with is None ==> partner_complaints(params, param).len() == 0,
        param.verify_with matches Some(partner) ==> partner_complaints(params, param).len() == one_if(
            param.read_address is Some,
        ) + one_if(
            match named(params, partner@) {
                None => true,
                Some(target) => target.read_address is None || (forall|v: u32|
                    !#[trigger] target.labels@.contains_key(v)) || (forall|v: u32|
                    !#[trigger] param.labels@.contains_key(v)),
            },
        ),
{
    if let Some(partner) = param.verify_with {
        lemma_no_labels(param.labels@);
        if let Some(target) = named(params, partner@) {
            lemma_no_labels(target.labels@);
        }
    }
}

proof fn lemma_no_labels(labels: Map<u32, String>)
    ensures
        labels.is_empty() <==> forall|v: u32| !#[trigger] labels.contains_key(v),
{
    if labels.is_empty() {
        assert forall|v: u32| !#[trigger] labels.contains_key(v) by {
            assert(!labels.dom().contains(v));
        }
    } else if forall|v: u32| !#[trigger] labels.contains_key(v) {
        assert(labels.dom() =~= Set::empty());
        assert(labels =~= Map::empty());
    }
}

/// A confirmation has a fault for a date that is none and another for a firmware that
/// is blank.
pub proof fn law_faults_of_confirmations(verified: Seq<Verification>)
    ensures
        verified_complaints(verified).len() == verified.filter(
            |v: Verification| !calendar::iso_date(v.date@),
        ).len() + verified.filter(|v: Verification| crate::map::blank(v.firmware@)).len(),
    decreases verified.len(),
{
    reveal(Seq::filter);
    if verified.len() > 0 {
        law_faults_of_confirmations(verified.drop_last());
    }
}

/// An address is claimed by the latest parameter that is read or written at it.
pub proof fn law_latest_claim_counts(params: Seq<Param>, addr: Seq<u8>, at: int)
    requires
        0 <= at < params.len(),
        claims(params[at], addr),
        forall|j: int| at < j < params.len() ==> !claims(#[trigger] params[j], addr),
    ensures
        claimant(params, addr) == Some(params[at].name@),
    decreases params.len(),
{
    if at < params.len() - 1 {
        let before = params.drop_last();
        assert(!claims(params[params.len() - 1], addr));
        assert(before[at] == params[at]);
        assert forall|j: int| at < j < before.len() implies !claims(#[trigger] before[j], addr) by {
            assert(before[j] == params[j]);
        }
        law_latest_claim_counts(before, addr, at);
    }
}

/// An address that no parameter is read or written at is claimed by none.
pub proof fn law_free_address_is_unclaimed(params: Seq<Param>, addr: Seq<u8>)
    requires
        forall|j: int| 0 <= j < params.len() ==> !claims(#[trigger] params[j], addr),
    ensures
        claimant(params, addr) is None,
    decreases params.len(),
{
    if params.len() > 0 {
        let before = params.drop_last();
        assert(!claims(params[params.len() - 1], addr));
        assert forall|j: int| 0 <= j < before.len() implies !claims(#[trigger] before[j], addr) by {
            assert(before[j] == params[j]);
        }
        law_free_address_is_unclaimed(before, addr);
    }
}

/// A parameter's place has a fault for a name that is taken, for one that is no
/// identifier, where it has no address, and for each address that another name claims.
/// An address that it is both read and written at is told once.
pub proof fn law_faults_of_a_place(params: Seq<Param>, i: int)
    requires
        0 <= i < params.len(),
    ensures
        ({
            let param = params[i];
            let taken = |a: Option<crate::sysex::Address>|
                a is Some && claimant(params.take(i), a->0@) is Some && claimant(
                    params.take(i),
                    a->0@,
                )->0 != param.name@;
            let same = param.read_address is Some && param.write_address is Some
                && param.read_address->0@ == param.write_address->0@;
            place_complaints(params, i).len() == one_if(
                exists|j: int| 0 <= j < i && (#[trigger] params[j]).name@ == param.name@,
            ) + one_if(!crate::map::identifier(param.name@)) + one_if(
                param.read_address is None && param.write_address is None,
            ) + one_if(taken(param.read_address)) + one_if(taken(param.write_address) && !same)
        }),
{
    let param = params[i];
    let before = params.take(i);
    crate::map::lemma_named(before, param.name@);
    if exists|j: int| 0 <= j < i && (#[trigger] params[j]).name@ == param.name@ {
        let j = choose|j: int| 0 <= j < i && (#[trigger] params[j]).name@ == param.name@;
        assert(before[j].name@ == param.name@);
    } else if let Some(p) = named(before, param.name@) {
        let k = choose|k: int| 0 <= k < before.len() && before[k] == p;
        assert(params[k].name@ == param.name@);
    }
}

proof fn lemma_outside(list: Seq<(u32, Seq<char>)>, min: u32, max: u32)
    ensures
        match first_outside(list, min, max) {
            None => forall|i: int| 0 <= i < list.len() ==> min <= (#[trigger] list[i]).0 <= max,
            Some(v) => (v < min || v > max) && exists|i: int|
                0 <= i < list.len() && (#[trigger] list[i]).0 == v && forall|j: int|
                    0 <= j < i ==> min <= (#[trigger] list[j]).0 <= max,
        },
    decreases list.len(),
{
    if list.len() > 0 {
        let before = list.drop_last();
        let n = list.len() - 1;
        lemma_outside(before, min, max);
        match first_outside(before, min, max) {
            None => {
                assert forall|j: int| 0 <= j < n implies min <= (#[trigger] list[j]).0 <= max by {
                    assert(before[j] == list[j]);
                }
                assert(list[n] == list.last());
            },
            Some(v) => {
                let i = choose|i: int|
                    0 <= i < before.len() && (#[trigger] before[i]).0 == v && forall|j: int|
                        0 <= j < i ==> min <= (#[trigger] before[j]).0 <= max;
                assert forall|j: int| 0 <= j < i implies min <= (#[trigger] list[j]).0 <= max by {
                    assert(before[j] == list[j]);
                }
                assert(list[i].0 == v);
            },
        }
    }
}

/// The label that is told to be outside is the lowest that is, and one is told wherever
/// there is one.
pub proof fn law_lowest_label_outside_is_told(labels: Map<u32, String>, min: u32, max: u32)
    ensures
        match first_outside(listing(labels), min, max) {
            Some(v) => labels.contains_key(v) && (v < min || v > max) && forall|k: u32| #[trigger]
                labels.contains_key(k) && (k < min || k > max) ==> v <= k,
            None => forall|k: u32| #[trigger] labels.contains_key(k) ==> min <= k <= max,
        },
{
    let list = listing(labels);
    lemma_listing(labels);
    lemma_outside(list, min, max);
    match first_outside(list, min, max) {
        Some(v) => {
            let i = choose|i: int|
                0 <= i < list.len() && (#[trigger] list[i]).0 == v && forall|j: int|
                    0 <= j < i ==> min <= (#[trigger] list[j]).0 <= max;
            assert(labels.contains_key(list[i].0));
            assert forall|k: u32| #[trigger]
                labels.contains_key(k) && (k < min || k > max) implies v <= k by {
                let m = choose|m: int| 0 <= m < list.len() && (#[trigger] list[m]).0 == k;
                if m < i {
                    assert(min <= list[m].0 <= max);
                } else if i < m {
                    assert(list[i].0 < list[m].0);
                }
            }
        },
        None => {
            assert forall|k: u32| #[trigger] labels.contains_key(k) implies min <= k <= max by {
                let m = choose|m: int| 0 <= m < list.len() && (#[trigger] list[m]).0 == k;
                assert(min <= list[m].0 <= max);
            }
        },
    }
}

proof fn lemma_repeated(labels: Map<u32, String>)
    ensures
        first_repeated(listing(labels)) is Some <==> exists|j: u32, k: u32| #[trigger]
            labels.contains_key(j) && #[trigger] labels.contains_key(k) && j != k && labels[j]@
                == labels[k]@,
{
    let list = listing(labels);
    lemma_listing(labels);
    crate::map::lemma_first_repeated(list);
    if first_repeated(list) is Some {
        let (i, m) = choose|i: int, m: int|
            0 <= i < m < list.len() && (#[trigger] list[i]).1 == (#[trigger] list[m]).1;
        assert(labels.contains_key(list[i].0) && labels.contains_key(list[m].0));
        assert(list[i].0 < list[m].0);
    } else if exists|j: u32, k: u32| #[trigger]
        labels.contains_key(j) && #[trigger] labels.contains_key(k) && j != k && labels[j]@
            == labels[k]@ {
        let (j, k) = choose|j: u32, k: u32| #[trigger]
            labels.contains_key(j) && #[trigger] labels.contains_key(k) && j != k && labels[j]@
                == labels[k]@;
        let a = choose|a: int| 0 <= a < list.len() && (#[trigger] list[a]).0 == j;
        let b = choose|b: int| 0 <= b < list.len() && (#[trigger] list[b]).0 == k;
        if a < b {
            assert(list[a].1 != list[b].1);
        } else {
            assert(list[b].1 != list[a].1);
        }
    }
}

/// The values of a parameter have a fault, of raw bytes, for labels and for a range; of
/// numbers, for a label above what the encoding holds, for a label that two values have,
/// for a range that is inverted, for one above what the encoding holds and for a label
/// outside it.
#[verifier::spinoff_prover]
pub proof fn law_faults_of_values(param: Param)
    ensures
        ({
            let most: u32 = if param.encoding is U7 {
                127
            } else {
                16383
            };
            value_complaints(param).len() == if param.encoding is Raw {
                one_if(exists|v: u32| #[trigger] param.labels@.contains_key(v)) + one_if(
                    param.range is Some,
                )
            } else {
                one_if(exists|v: u32| #[trigger] param.labels@.contains_key(v) && v > most)
                    + one_if(
                    exists|j: u32, k: u32| #[trigger]
                        param.labels@.contains_key(j) && #[trigger] param.labels@.contains_key(k)
                            && j != k && param.labels@[j]@ == param.labels@[k]@,
                ) + match param.range {
                    None => 0,
                    Some(range) => one_if(range.min > range.max) + one_if(range.max > most)
                        + one_if(
                        exists|v: u32| #[trigger]
                            param.labels@.contains_key(v) && (v < range.min || v > range.max),
                    ),
                }
            }
        }),
{
    lemma_no_labels(param.labels@);
    lemma_repeated(param.labels@);
    let most: u32 = if param.encoding is U7 {
        127
    } else {
        16383
    };
    law_lowest_label_outside_is_told(param.labels@, 0, most);
    if let Some(range) = param.range {
        law_lowest_label_outside_is_told(param.labels@, range.min, range.max);
    }
    if !(param.encoding is Raw) {
        assert(param.encoding.largest() == Some(most));
        assert(first_outside(listing(param.labels@), 0, most) is Some <==> exists|v: u32| #[trigger]
            param.labels@.contains_key(v) && v > most);
    }
}

/// A parameter says why it takes no number: it is outside the range; or, without one, it
/// is not among the labels; or it does not fit.
pub proof fn law_parameter_says_why(param: Param, n: u32)
    ensures
        param.range matches Some(range) ==> ((n < range.min || n > range.max) ==> param.objection(
            ValueView::Num(n),
        ) == Some(
            "outside "@ + text::dec(range.min as nat) + "..="@ + text::dec(range.max as nat),
        )),
        param.range is None && !param.labels@.contains_key(n) && (exists|v: u32| #[trigger]
            param.labels@.contains_key(v)) ==> param.objection(ValueView::Num(n)) == Some(
            "not one of "@ + labels_text(param.labels@),
        ),
{
    lemma_no_labels(param.labels@);
}

/// Bytes that are no data bytes are told by the first of them.
pub proof fn law_wide_byte_is_told(param: Param, bytes: Seq<u8>, at: int)
    requires
        0 <= at < bytes.len(),
        bytes[at] >= 128,
        forall|i: int| 0 <= i < at ==> #[trigger] bytes[i] < 128,
    ensures
        param.objection(ValueView::Raw(bytes)) == Some(
            "byte "@ + text::prefixed_hex(bytes[at]) + " is not 7-bit"@,
        ),
{
    sysex::law_first_wide_is_the_first(bytes, at);
}

proof fn lemma_joined_holds(parts: Seq<Seq<char>>, sep: Seq<char>, i: int)
    requires
        0 <= i < parts.len(),
    ensures
        text::occurs(parts[i], text::joined(parts, sep)),
    decreases parts.len(),
{
    let all = text::joined(parts, sep);
    if parts.len() == 1 {
        assert(all.subrange(0int, 0int + parts[0].len()) =~= parts[0]);
    } else if i == parts.len() - 1 {
        let n = (text::joined(parts.drop_last(), sep) + sep).len() as int;
        assert(all.subrange(n, n + parts[i].len()) =~= parts[i]);
    } else {
        let before = text::joined(parts.drop_last(), sep);
        lemma_joined_holds(parts.drop_last(), sep, i);
        assert(parts.drop_last()[i] == parts[i]);
        let n = choose|n: int|
            0 <= n && n + parts[i].len() <= before.len() && #[trigger] before.subrange(
                n,
                n + parts[i].len(),
            ) == parts[i];
        assert(all.subrange(n, n + parts[i].len()) =~= before.subrange(n, n + parts[i].len()));
    }
}

/// Every label is listed, with its value in brackets.
pub proof fn law_every_label_is_listed(labels: Map<u32, String>, v: u32)
    requires
        labels.contains_key(v),
    ensures
        text::occurs(labels[v]@ + "("@ + text::dec(v as nat) + ")"@, labels_text(labels)),
{
    lemma_listing(labels);
    let list = listing(labels);
    let parts = list.map_values(|e: (u32, Seq<char>)| e.1 + "("@ + text::dec(e.0 as nat) + ")"@);
    let i = choose|i: int| 0 <= i < list.len() && (#[trigger] list[i]).0 == v;
    lemma_joined_holds(parts, ", "@, i);
    assert(parts[i] == labels[v]@ + "("@ + text::dec(v as nat) + ")"@);
}

/// An example is true exactly where its frame writes or reads, at the address of a
/// parameter, as many bytes as the parameter has.
pub proof fn law_true_example(map: AddressMap, example: Example)
    ensures
        example_complaint(map, example) is None <==> (hex::parsed_hex_field(example.frame@) matches Ok(
            bytes,
        ) && match sysex::decoded_frame(map.device.model_id@, bytes) {
            Ok(sysex::IncomingView::Dt1 { addr, data, .. }) => located(map.params@, addr) is Some
                && located(map.params@, addr)->0.size == data.len(),
            Ok(sysex::IncomingView::Rq1 { addr, size, .. }) => located(map.params@, addr) is Some
                && located(map.params@, addr)->0.size == size,
            _ => false,
        }),
{
}

proof fn lemma_param_problem(params: Seq<Param>, n: int, i: int, k: int)
    requires
        0 <= i < n <= params.len(),
        0 <= k < complaints(params, i).len(),
    ensures
        param_problems(params, n).contains(
            params[i].name@ + ": "@ + complaints(params, i)[k],
        ),
    decreases n,
{
    let told = params[i].name@ + ": "@ + complaints(params, i)[k];
    let all = param_problems(params, n);
    let before = param_problems(params, n - 1);
    let last = crate::map::attributed(params[n - 1].name@, complaints(params, n - 1));
    assert(all == before + last);
    if i == n - 1 {
        assert(last[k] == told);
        assert(all[before.len() + k] == told);
    } else {
        lemma_param_problem(params, n - 1, i, k);
        let m = choose|m: int| 0 <= m < before.len() && before[m] == told;
        assert(all[m] == told);
    }
}

proof fn lemma_example_problem(map: AddressMap, n: int, k: int)
    requires
        0 <= k < n <= map.examples@.len(),
        example_complaint(map, map.examples@[k]) is Some,
    ensures
        example_problems(map, n).contains(
            "example "@ + text::quoted(map.examples@[k].note@) + ": "@ + example_complaint(
                map,
                map.examples@[k],
            )->0,
        ),
    decreases n,
{
    let told = "example "@ + text::quoted(map.examples@[k].note@) + ": "@ + example_complaint(
        map,
        map.examples@[k],
    )->0;
    let all = example_problems(map, n);
    let before = example_problems(map, n - 1);
    if k == n - 1 {
        assert(all == before.push(told));
        assert(all[before.len() as int] == told);
    } else {
        lemma_example_problem(map, n - 1, k);
        let m = choose|m: int| 0 <= m < before.len() && before[m] == told;
        assert(all[m] == told);
    }
}

proof fn lemma_contains_in(a: Seq<Seq<char>>, b: Seq<Seq<char>>, c: Seq<Seq<char>>, x: Seq<char>)
    requires
        b.contains(x),
    ensures
        (a + b + c).contains(x),
        (a + b).contains(x),
        (b + c).contains(x),
{
    let k = choose|k: int| 0 <= k < b.len() && b[k] == x;
    assert((a + b + c)[a.len() + k] == x);
    assert((a + b)[a.len() + k] == x);
    assert((b + c)[k] == x);
}

/// Every fault of a parameter is told, after the parameter's name.
#[verifier::spinoff_prover]
pub proof fn law_every_fault_of_a_parameter_is_told(map: AddressMap, i: int, k: int)
    requires
        0 <= i < map.params@.len(),
        0 <= k < complaints(map.params@, i).len(),
    ensures
        problems(map).contains(map.params@[i].name@ + ": "@ + complaints(map.params@, i)[k]),
{
    let told = map.params@[i].name@ + ": "@ + complaints(map.params@, i)[k];
    lemma_param_problem(map.params@, map.params@.len() as int, i, k);
    lemma_in_the_middle(map, told);
}

/// Every example that is not true is told, after its note.
#[verifier::spinoff_prover]
pub proof fn law_every_false_example_is_told(map: AddressMap, k: int)
    requires
        0 <= k < map.examples@.len(),
        example_complaint(map, map.examples@[k]) is Some,
    ensures
        problems(map).contains(
            "example "@ + text::quoted(map.examples@[k].note@) + ": "@ + example_complaint(
                map,
                map.examples@[k],
            )->0,
        ),
{
    let told = "example "@ + text::quoted(map.examples@[k].note@) + ": "@ + example_complaint(
        map,
        map.examples@[k],
    )->0;
    lemma_example_problem(map, map.examples@.len() as int, k);
    lemma_in_the_middle(map, told);
}

#[verifier::spinoff_prover]
proof fn lemma_in_the_middle(map: AddressMap, told: Seq<char>)
    ensures
        param_problems(map.params@, map.params@.len() as int).contains(told) ==> problems(
            map,
        ).contains(told),
        example_problems(map, map.examples@.len() as int).contains(told) ==> problems(map).contains(
            told,
        ),
        device_problems(map.device).contains(told) ==> problems(map).contains(told),
{
    let schema = text::noted(
        Seq::empty(),
        map.schema@ != crate::map::SCHEMA@,
        "schema is "@ + text::quoted(map.schema@) + ", expected "@ + text::quoted(
            crate::map::SCHEMA@,
        ),
    );
    let device = device_problems(map.device);
    let none = text::noted(Seq::empty(), map.params@.len() == 0, "no parameters"@);
    let params = param_problems(map.params@, map.params@.len() as int);
    let examples = example_problems(map, map.examples@.len() as int);
    assert(problems(map) == schema + device + none + params + examples);
    if params.contains(told) {
        lemma_contains_in(schema + device + none, params, examples, told);
    }
    if examples.contains(told) {
        lemma_contains_in(schema + device + none + params, examples, Seq::empty(), told);
    }
    if device.contains(told) {
        lemma_contains_in(schema, device, none, told);
        lemma_contains_in(Seq::empty(), schema + device + none, params + examples, told);
        assert(Seq::<Seq<char>>::empty() + (schema + device + none) + (params + examples)
            =~= problems(map));
    }
}

/// Each source, each method and each encoding has a name of its own.
pub proof fn law_names_tell_apart(
    a: Source,
    b: Source,
    c: Method,
    d: Method,
    e: Encoding,
    f: Encoding,
)
    ensures
        a.name() == b.name() ==> a == b,
        c.name() == d.name() ==> c == d,
        e.name() == f.name() ==> e == f,
{
    reveal_strlit("official_doc");
    reveal_strlit("app_re");
    reveal_strlit("panel_capture");
    reveal_strlit("rq1_roundtrip");
    reveal_strlit("write_readback");
    reveal_strlit("u7");
    reveal_strlit("u14");
    reveal_strlit("raw");
    assert("panel_capture"@[0] == 'p' && "rq1_roundtrip"@[0] == 'r' && "write_readback"@[0] == 'w');
    assert("official_doc"@.len() == 12 && "app_re"@.len() == 6 && "panel_capture"@.len() == 13);
    assert("u7"@.len() == 2 && "u14"@.len() == 3 && "raw"@.len() == 3);
    assert("u14"@[0] == 'u' && "raw"@[0] == 'r');
}

} // verus!
