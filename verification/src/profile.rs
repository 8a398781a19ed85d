//! Profiles: the values that the parameters of a device should have.

use crate::hex;
use crate::hex::parse_hex;
use crate::map::{same_value, AddressMap, Encoding, Param, Value};
use crate::sysex;
use crate::text;
use crate::text::{comes_before, dec_int_text, dec_text, join, no_texts, push_text, quote, same};
use vstd::prelude::*;

verus! {

/// A value as a profile writes it.
#[derive(Debug)]
pub enum Written {
    Num(i64),
    Text(String),
}

/// The contents of a written value.
pub enum WrittenView {
    Num(i64),
    Text(Seq<char>),
}

impl View for Written {
    type V = WrittenView;

    open spec fn view(&self) -> WrittenView {
        match *self {
            Written::Num(n) => WrittenView::Num(n),
            Written::Text(s) => WrittenView::Text(s@),
        }
    }
}

/// Values for parameters, by name.
#[derive(Debug)]
pub struct Profile(Vec<(String, Written)>);

/// The contents of a list of written values.
pub open spec fn written_view(list: Seq<(String, Written)>) -> Seq<(Seq<char>, WrittenView)> {
    list.map_values(|e: (String, Written)| (e.0@, e.1@))
}

/// Whether the names stand in strictly increasing order.
pub open spec fn sorted(list: Seq<(Seq<char>, WrittenView)>) -> bool {
    forall|i: int, j: int|
        0 <= i < j < list.len() ==> text::precedes((#[trigger] list[i]).0, (#[trigger] list[j]).0)
}

/// The value of each name; where a name occurs twice, the later value.
pub open spec fn table(list: Seq<(Seq<char>, WrittenView)>) -> Map<Seq<char>, WrittenView>
    decreases list.len(),
{
    if list.len() == 0 {
        Map::empty()
    } else {
        table(list.drop_last()).insert(list.last().0, list.last().1)
    }
}

impl View for Profile {
    type V = Seq<(Seq<char>, WrittenView)>;

    closed spec fn view(&self) -> Seq<(Seq<char>, WrittenView)> {
        written_view(self.0@)
    }
}

proof fn lemma_table_update(
    a: Seq<(Seq<char>, WrittenView)>,
    i: int,
    key: Seq<char>,
    value: WrittenView,
)
    requires
        sorted(a),
        0 <= i < a.len(),
        a[i].0 == key,
    ensures
        sorted(a.update(i, (key, value))),
        table(a.update(i, (key, value))) == table(a).insert(key, value),
    decreases a.len(),
{
    let b = a.update(i, (key, value));
    let before = a.drop_last();
    if i == a.len() - 1 {
        assert(b.drop_last() =~= before);
    } else {
        lemma_table_update(before, i, key, value);
        assert(b.drop_last() =~= before.update(i, (key, value)));
        assert(text::precedes(a[i].0, a[a.len() - 1].0));
        text::lemma_precedes_irreflexive(key);
        assert(b.last() == a.last());
    }
    assert(table(b) =~= table(a).insert(key, value));
}

proof fn lemma_table_insert(
    a: Seq<(Seq<char>, WrittenView)>,
    i: int,
    key: Seq<char>,
    value: WrittenView,
)
    requires
        0 <= i <= a.len(),
        forall|k: int| i <= k < a.len() ==> (#[trigger] a[k]).0 != key,
    ensures
        table(a.insert(i, (key, value))) == table(a).insert(key, value),
    decreases a.len(),
{
    let b = a.insert(i, (key, value));
    if i == a.len() {
        assert(b.drop_last() =~= a);
    } else {
        let before = a.drop_last();
        lemma_table_insert(before, i, key, value);
        assert(b.drop_last() =~= before.insert(i, (key, value)));
        assert(b.last() == a.last());
        assert(a[a.len() - 1].0 != key);
        assert(table(b) =~= table(a).insert(key, value));
    }
}

proof fn lemma_sorted_insert(
    a: Seq<(Seq<char>, WrittenView)>,
    i: int,
    key: Seq<char>,
    value: WrittenView,
)
    requires
        sorted(a),
        0 <= i <= a.len(),
        forall|k: int| 0 <= k < i ==> text::precedes((#[trigger] a[k]).0, key),
        i < a.len() ==> text::precedes(key, a[i].0),
    ensures
        sorted(a.insert(i, (key, value))),
        forall|k: int| i <= k < a.len() ==> (#[trigger] a[k]).0 != key,
{
    let b = a.insert(i, (key, value));
    text::lemma_precedes_irreflexive(key);
    assert forall|k: int| i <= k < a.len() implies text::precedes(key, (#[trigger] a[k]).0) by {
        if k > i {
            assert(text::precedes(a[i].0, a[k].0));
            text::lemma_precedes_transitive(key, a[i].0, a[k].0);
        }
    }
    assert forall|x: int, y: int| 0 <= x < y < b.len() implies text::precedes(
        (#[trigger] b[x]).0,
        (#[trigger] b[y]).0,
    ) by {
        if x < i {
            assert(b[x] == a[x]);
        } else if x > i {
            assert(b[x] == a[x - 1]);
        }
        if y < i {
            assert(b[y] == a[y]);
        } else if y > i {
            assert(b[y] == a[y - 1]);
        }
    }
}

/// Puts a value into a sorted list, in place of one with the same name.
fn put(list: &mut Vec<(String, Written)>, name: String, written: Written)
    requires
        sorted(written_view(old(list)@)),
    ensures
        sorted(written_view(final(list)@)),
        table(written_view(final(list)@)) == table(written_view(old(list)@)).insert(
            name@,
            written@,
        ),
{
    let ghost a = written_view(list@);
    let ghost (key, value) = (name@, written@);
    let mut i: usize = 0;
    while i < list.len() && comes_before(list[i].0.as_str(), name.as_str())
        invariant
            *list == *old(list),
            i <= list.len(),
            a == written_view(list@),
            key == name@,
            forall|k: int| 0 <= k < i ==> text::precedes((#[trigger] a[k]).0, key),
        decreases list.len() - i,
    {
        i = i + 1;
    }
    assert(i < list.len() ==> a[i as int].0 == list@[i as int].0@);
    if i < list.len() && same(list[i].0.as_str(), name.as_str()) {
        list.set(i, (name, written));
        assert(written_view(list@) =~= a.update(i as int, (key, value)));
        proof {
            lemma_table_update(a, i as int, key, value);
        }
    } else {
        proof {
            if i < a.len() {
                text::lemma_precedes_total(a[i as int].0, key);
            }
            lemma_sorted_insert(a, i as int, key, value);
            lemma_table_insert(a, i as int, key, value);
        }
        list.insert(i, (name, written));
        assert(written_view(list@) =~= a.insert(i as int, (key, value)));
    }
}

impl Profile {
    #[verifier::type_invariant]
    spec fn in_order(self) -> bool {
        sorted(written_view(self.0@))
    }

    /// The profile with these values, in the order of their names; where a name
    /// occurs twice, the later value counts.
    pub fn from_entries(entries: Vec<(String, Written)>) -> (r: Self)
        ensures
            sorted(r@),
            table(r@) == table(written_view(entries@)),
    {
        let ghost all = written_view(entries@);
        let mut list: Vec<(String, Written)> = Vec::new();
        assert(written_view(list@) =~= all.take(0));
        for entry in it: entries
            invariant
                all == written_view(it.seq()),
                sorted(written_view(list@)),
                table(written_view(list@)) == table(all.take(it.index())),
        {
            proof {
                let i = it.index();
                assert(all.take(i + 1).drop_last() =~= all.take(i));
                assert(all.take(i + 1).last() == (entry.0@, entry.1@));
            }
            put(&mut list, entry.0, entry.1);
        }
        assert(all.take(all.len() as int) =~= all);
        Profile(list)
    }
}

// ---------------------------------------------------------------------------
// Plans
// ---------------------------------------------------------------------------

/// What is done to one parameter.
#[derive(Debug)]
pub struct Step<'m> {
    pub param: &'m Param,
    pub desired: Value,
    pub current_from: Option<&'m Param>,
    pub frame: Vec<u8>,
}

/// The contents of a step: the parameter, the value that it should have, the
/// parameter from which its present value is read, and the frame that writes it.
pub struct StepView {
    pub param: Param,
    pub desired: crate::map::ValueView,
    pub current_from: Option<Param>,
    pub frame: Seq<u8>,
}

/// What a step comes to.
#[derive(Debug, PartialEq, Eq)]
pub enum Decision {
    InSync,
    Write(Reason),
}

/// Why a parameter is written.
#[derive(Debug, PartialEq, Eq)]
pub enum Reason {
    Differs,
    Unknown,
    /// The parameter that is read back has no name for the value that is
    /// wanted, so agreement cannot be established either way.
    NotComparable,
}

impl<'m> View for Step<'m> {
    type V = StepView;

    open spec fn view(&self) -> StepView {
        StepView {
            param: *self.param,
            desired: self.desired@,
            current_from: crate::map::found(self.current_from),
            frame: self.frame@,
        }
    }
}

/// The contents of each step of a list.
pub open spec fn steps_view(list: Seq<Step<'_>>) -> Seq<StepView> {
    list.map_values(|s: Step<'_>| s@)
}

/// The value that a profile means for a parameter, or why it means none.
pub open spec fn resolved(param: Param, written: WrittenView) -> Result<
    crate::map::ValueView,
    Seq<char>,
> {
    let value = match written {
        WrittenView::Num(n) => if n < 0 {
            Err(text::dec_int(n as int) + " is negative; values start at 0"@)
        } else if n > u32::MAX {
            Err(
                text::dec_int(n as int) + " is too large; maximum is "@ + text::dec(
                    u32::MAX as nat,
                ),
            )
        } else {
            Ok(crate::map::ValueView::Num(n as u32))
        },
        WrittenView::Text(label) => match crate::map::first_labelled(
            crate::map::listing(param.labels@),
            label,
        ) {
            Some(v) => Ok(crate::map::ValueView::Num(v)),
            None => if param.encoding == Encoding::Raw {
                match hex::parsed_hex(label) {
                    Ok(bytes) => Ok(crate::map::ValueView::Raw(bytes)),
                    Err(e) => Err(e),
                }
            } else if param.labels@.is_empty() {
                Err(text::quoted(label) + " is not a number"@)
            } else {
                Err(
                    text::quoted(label) + " is not one of "@ + crate::map::labels_text(
                        param.labels@,
                    ),
                )
            },
        },
    };
    match value {
        Err(e) => Err(e),
        Ok(v) => match param.objection(v) {
            Some(e) => Err(param.shown(v) + " "@ + e),
            None => Ok(v),
        },
    }
}

/// The parameter from which the present value of `param` is read: itself, else
/// the one that it is verified with.
pub open spec fn read_from(params: Seq<Param>, param: Param) -> Option<Param> {
    if param.read_address is Some {
        Some(param)
    } else {
        match param.verify_with {
            Some(partner) => crate::map::named(params, partner@),
            None => None,
        }
    }
}

/// The step for one entry of a profile, or why there is none.
pub open spec fn step_of(map: AddressMap, entry: (Seq<char>, WrittenView)) -> Result<
    StepView,
    Seq<char>,
> {
    let (name, written) = entry;
    match crate::map::named(map.params@, name) {
        None => Err(name + ": no such parameter in the map"@),
        Some(param) => match param.write_address {
            None => Err(name + ": is read-only"@),
            Some(addr) => match resolved(param, written) {
                Err(e) => Err(name + ": "@ + e),
                Ok(value) => Ok(
                    StepView {
                        param,
                        desired: value,
                        current_from: read_from(map.params@, param),
                        frame: sysex::dt1_frame(
                            map.device.model_id@,
                            map.device.device_id_default,
                            addr@,
                            param.encoded(value)->0,
                        ),
                    },
                ),
            },
        },
    }
}

/// The steps of the entries that have one, in order.
pub open spec fn steps_of(
    map: AddressMap,
    entries: Seq<(Seq<char>, WrittenView)>,
) -> Seq<StepView>
    decreases entries.len(),
{
    if entries.len() == 0 {
        Seq::empty()
    } else {
        let before = steps_of(map, entries.drop_last());
        match step_of(map, entries.last()) {
            Ok(step) => before.push(step),
            Err(_) => before,
        }
    }
}

/// What is wrong with the entries that have no step, in order.
pub open spec fn obstacles(
    map: AddressMap,
    entries: Seq<(Seq<char>, WrittenView)>,
) -> Seq<Seq<char>>
    decreases entries.len(),
{
    if entries.len() == 0 {
        Seq::empty()
    } else {
        let before = obstacles(map, entries.drop_last());
        match step_of(map, entries.last()) {
            Ok(_) => before,
            Err(e) => before.push(e),
        }
    }
}

/// What a step comes to, given the present value.
pub open spec fn decided(step: StepView, current: Option<crate::map::ValueView>) -> Decision {
    match (current, step.current_from) {
        (Some(now), Some(from)) => if from.name@ == step.param.name@ {
            if now == step.desired {
                Decision::InSync
            } else {
                Decision::Write(Reason::Differs)
            }
        } else {
            match (step.param.label_of(step.desired), from.label_of(now)) {
                (Some(want), Some(have)) => if crate::map::first_labelled(
                    crate::map::listing(from.labels@),
                    want,
                ) is None {
                    Decision::Write(Reason::NotComparable)
                } else if want == have {
                    Decision::InSync
                } else {
                    Decision::Write(Reason::Differs)
                },
                _ => Decision::Write(Reason::NotComparable),
            }
        },
        _ => Decision::Write(Reason::Unknown),
    }
}

/// The contents of a reference to a value that may be missing.
pub open spec fn current_option(v: Option<&Value>) -> Option<crate::map::ValueView> {
    match v {
        Some(v) => Some(v@),
        None => None,
    }
}

/// The value that a profile means for a parameter.
fn resolve(param: &Param, written: &Written) -> (r: Result<Value, String>)
    ensures
        match r {
            Ok(v) => resolved(*param, written@) == Ok::<crate::map::ValueView, Seq<char>>(v@),
            Err(e) => resolved(*param, written@) == Err::<crate::map::ValueView, Seq<char>>(e@),
        },
{
    let value = match written {
        Written::Num(n) => {
            if *n < 0 {
                return Err(dec_int_text(*n).concat(" is negative; values start at 0"));
            }
            if *n > 4294967295 {
                return Err(
                    dec_int_text(*n).concat(" is too large; maximum is ").concat(
                        dec_text(u32::MAX as u64).as_str(),
                    ),
                );
            }
            Value::Num(*n as u32)
        },
        Written::Text(label) => {
            match param.value_of(label.as_str()) {
                Some(v) => Value::Num(v),
                None => match param.encoding {
                    Encoding::Raw => match parse_hex(label.as_str()) {
                        Ok(bytes) => Value::Raw(bytes),
                        Err(e) => {
                            return Err(e);
                        },
                    },
                    _ => {
                        let shown = quote(label.as_str());
                        if param.labels.is_empty() {
                            return Err(shown.concat(" is not a number"));
                        }
                        return Err(
                            shown.concat(" is not one of ").concat(param.label_list().as_str()),
                        );
                    },
                },
            }
        },
    };
    match param.accepts(&value) {
        Ok(_) => Ok(value),
        Err(e) => Err(param.show(&value).concat(" ").concat(e.as_str())),
    }
}

impl Profile {
    /// A step for each value of the profile, in the order of the names; where
    /// some value cannot be written, every obstacle and no step.
    pub fn plan<'m>(&self, map: &'m AddressMap) -> (r: Result<Vec<Step<'m>>, String>)
        ensures
            match r {
                Ok(steps) => obstacles(*map, self@).len() == 0 && steps_view(steps@) == steps_of(
                    *map,
                    self@,
                ),
                Err(e) => obstacles(*map, self@).len() > 0 && e@ == text::joined(
                    obstacles(*map, self@),
                    "\n"@,
                ),
            },
    {
        let codec = map.codec();
        let ghost entries = self@;
        let mut steps: Vec<Step<'m>> = Vec::new();
        let mut problems = no_texts();
        let mut i: usize = 0;
        assert(steps_view(steps@) =~= Seq::empty());
        while i < self.0.len()
            invariant
                i <= self.0.len(),
                entries == written_view(self.0@),
                codec.model() == map.device.model_id@,
                codec.device() == map.device.device_id_default,
                steps_view(steps@) == steps_of(*map, entries.take(i as int)),
                text::texts(problems@) == obstacles(*map, entries.take(i as int)),
            decreases self.0.len() - i,
        {
            let name = self.0[i].0.as_str();
            let written = &self.0[i].1;
            proof {
                let here = entries.take(i + 1);
                assert(here.drop_last() =~= entries.take(i as int));
                assert(here.last() == (name@, written@));
            }
            match map.param(name) {
                None => {
                    push_text(
                        &mut problems,
                        name.to_owned().concat(": no such parameter in the map"),
                    );
                },
                Some(param) => match param.write_address {
                    None => {
                        push_text(&mut problems, name.to_owned().concat(": is read-only"));
                    },
                    Some(address) => match resolve(param, written) {
                        Err(e) => {
                            push_text(
                                &mut problems,
                                name.to_owned().concat(": ").concat(e.as_str()),
                            );
                        },
                        Ok(desired) => {
                            if let Some(bytes) = param.encode(&desired) {
                                let current_from: Option<&'m Param> = match param.read_address {
                                    Some(_) => Some(param),
                                    None => match &param.verify_with {
                                        Some(partner) => map.param(partner.as_str()),
                                        None => None,
                                    },
                                };
                                let frame = codec.dt1(address, bytes.as_slice());
                                let step = Step { param, desired, current_from, frame };
                                let ghost before = steps@;
                                steps.push(step);
                                assert(steps_view(steps@) =~= steps_view(before).push(step@));
                            } else {
                                assert(false);
                            }
                        },
                    },
                },
            }
            i = i + 1;
        }
        assert(entries.take(entries.len() as int) =~= entries);
        if problems.len() == 0 {
            assert(obstacles(*map, entries).len() == 0);
            Ok(steps)
        } else {
            Err(join(&problems, "\n"))
        }
    }
}

impl<'m> Step<'m> {
    /// The frame that writes the value.
    pub fn frame(&self) -> (r: &[u8])
        ensures
            r@ == self@.frame,
    {
        self.frame.as_slice()
    }

    /// What the step comes to, given the present value.
    pub fn decide(&self, current: Option<&Value>) -> (r: Decision)
        ensures
            r == decided(self@, current_option(current)),
    {
        let (now, from) = match (current, self.current_from) {
            (Some(now), Some(from)) => (now, from),
            _ => {
                return Decision::Write(Reason::Unknown);
            },
        };
        if same(from.name.as_str(), self.param.name.as_str()) {
            return if same_value(now, &self.desired) {
                Decision::InSync
            } else {
                Decision::Write(Reason::Differs)
            };
        }
        match (self.param.label(&self.desired), from.label(now)) {
            (Some(want), Some(have)) => {
                if from.value_of(want).is_none() {
                    Decision::Write(Reason::NotComparable)
                } else if same(want, have) {
                    Decision::InSync
                } else {
                    Decision::Write(Reason::Differs)
                }
            },
            _ => Decision::Write(Reason::NotComparable),
        }
    }
}

// ---------------------------------------------------------------------------
// Laws
// ---------------------------------------------------------------------------

/// A plan is all or nothing: without an obstacle every entry has its step, in
/// the order of the entries; and each entry is either a step or an obstacle.
pub proof fn law_plan_is_all_or_nothing(map: AddressMap, entries: Seq<(Seq<char>, WrittenView)>)
    ensures
        steps_of(map, entries).len() + obstacles(map, entries).len() == entries.len(),
        obstacles(map, entries).len() == 0 <==> forall|i: int|
            0 <= i < entries.len() ==> step_of(map, #[trigger] entries[i]) is Ok,
        obstacles(map, entries).len() == 0 ==> forall|i: int|
            0 <= i < entries.len() ==> step_of(map, #[trigger] entries[i]) == Ok::<
                StepView,
                Seq<char>,
            >(steps_of(map, entries)[i]),
    decreases entries.len(),
{
    if entries.len() > 0 {
        let before = entries.drop_last();
        let n = entries.len() - 1;
        law_plan_is_all_or_nothing(map, before);
        assert(entries[n] == entries.last());
        if obstacles(map, entries).len() == 0 {
            assert forall|i: int| 0 <= i < entries.len() implies step_of(map, #[trigger] entries[i])
                == Ok::<StepView, Seq<char>>(steps_of(map, entries)[i]) by {
                if i < n {
                    assert(before[i] == entries[i]);
                    assert(steps_of(map, before)[i] == steps_of(map, entries)[i]);
                }
            }
        } else if obstacles(map, before).len() > 0 {
            let i = choose|i: int| 0 <= i < before.len() && step_of(map, #[trigger] before[i]) is Err;
            assert(step_of(map, entries[i]) is Err);
        }
    }
}

/// Every obstacle of a plan is reported.
pub proof fn law_every_obstacle_is_reported(
    map: AddressMap,
    entries: Seq<(Seq<char>, WrittenView)>,
    i: int,
)
    requires
        0 <= i < entries.len(),
        step_of(map, entries[i]) is Err,
    ensures
        obstacles(map, entries).contains(step_of(map, entries[i])->Err_0),
    decreases entries.len(),
{
    let before = entries.drop_last();
    let e = step_of(map, entries[i])->Err_0;
    if i == entries.len() - 1 {
        assert(obstacles(map, entries).last() == e);
    } else {
        law_every_obstacle_is_reported(map, before, i);
        let k = choose|k: int| 0 <= k < obstacles(map, before).len() && obstacles(map, before)[k] == e;
        assert(obstacles(map, entries)[k] == e);
    }
}

/// In a consistent map the frame of a step is a write of data bytes at the
/// parameter's write address that the parameter reads as the desired value.
pub proof fn law_step_writes_the_desired_value(
    map: AddressMap,
    entry: (Seq<char>, WrittenView),
    addr: Seq<u8>,
)
    requires
        crate::map::consistent(map),
        step_of(map, entry) is Ok,
        crate::map::address_option(step_of(map, entry)->Ok_0.param.write_address) == Some(addr),
        sysex::is_address(addr),
    ensures
        ({
            let step = step_of(map, entry)->Ok_0;
            &&& step.param.name@ == entry.0
            &&& sysex::decoded_frame(map.device.model_id@, step.frame) matches Ok(
                sysex::IncomingView::Dt1 { device_id, addr: at, data },
            ) && device_id == map.device.device_id_default && at == addr && step.param.decoded(data)
                == Some(step.desired)
        }),
{
    let step = step_of(map, entry)->Ok_0;
    crate::map::law_accepted_value_reads_back(step.param, step.desired);
    crate::map::lemma_named(map.params@, entry.0);
    let i = choose|i: int| 0 <= i < map.params@.len() && map.params@[i] == step.param;
    assert(crate::map::is_sound(map.params@, map.params@[i]));
    sysex::law_write_reads_back(
        map.device.model_id@,
        map.device.device_id_default,
        addr,
        step.param.encoded(step.desired)->0,
    );
}

/// A parameter that can be read is in sync exactly where it reads the desired
/// value.
pub proof fn law_direct_reading_decides(
    map: AddressMap,
    entry: (Seq<char>, WrittenView),
    current: crate::map::ValueView,
)
    requires
        step_of(map, entry) is Ok,
        step_of(map, entry)->Ok_0.param.read_address is Some,
    ensures
        ({
            let step = step_of(map, entry)->Ok_0;
            (decided(step, Some(current)) == Decision::InSync) == (current == step.desired)
        }),
{
}

/// Where nothing was read, or nothing can be, the value is written.
pub proof fn law_unknown_is_written(step: StepView, current: Option<crate::map::ValueView>)
    ensures
        (decided(step, current) == Decision::Write(Reason::Unknown)) == (current is None
            || step.current_from is None),
{
}

/// A reading of the parameter itself decides by the value: in sync exactly where it is
/// the desired one, else it differs.
pub proof fn law_own_reading_decides_by_value(step: StepView, current: crate::map::ValueView)
    requires
        step.current_from is Some,
        step.current_from->0.name@ == step.param.name@,
    ensures
        decided(step, Some(current)) == Decision::InSync <==> current == step.desired,
        decided(step, Some(current)) == Decision::Write(Reason::Differs) <==> current
            != step.desired,
{
}

/// A reading of a partner decides by the labels. Where the desired value has a label,
/// some value of the partner has the same one, and the reading has one, the parameter
/// is in sync exactly where the two labels are the same, and differs exactly where they
/// are not; in every other case the two cannot be compared.
pub proof fn law_partner_reading_decides_by_label(step: StepView, current: crate::map::ValueView)
    requires
        step.current_from is Some,
        step.current_from->0.name@ != step.param.name@,
    ensures
        ({
            let own = step.param.labels@;
            let partners = step.current_from->0.labels@;
            let decision = decided(step, Some(current));
            match (step.desired, current) {
                (crate::map::ValueView::Num(want), crate::map::ValueView::Num(have)) => {
                    let comparable = own.contains_key(want) && partners.contains_key(have)
                        && exists|k: u32| #[trigger]
                        partners.contains_key(k) && partners[k]@ == own[want]@;
                    &&& decision == Decision::InSync <==> comparable && own[want]@
                        == partners[have]@
                    &&& decision == Decision::Write(Reason::Differs) <==> comparable && own[want]@
                        != partners[have]@
                    &&& decision == Decision::Write(Reason::NotComparable) <==> !comparable
                },
                _ => decision == Decision::Write(Reason::NotComparable),
            }
        }),
{
    if let crate::map::ValueView::Num(want) = step.desired {
        if step.param.labels@.contains_key(want) {
            crate::map::law_label_stands_for_its_value(
                step.current_from->0.labels@,
                step.param.labels@[want]@,
            );
        }
    }
}

/// A number in a profile means that number, whatever the encoding; a text that is a
/// label of the parameter means a number with that label; and any other text means the
/// bytes that it spells, for a raw parameter.
pub proof fn law_written_value_is_meant(map: AddressMap, name: Seq<char>, n: i64, words: Seq<char>)
    ensures
        step_of(map, (name, WrittenView::Num(n))) matches Ok(step) ==> (
        step.desired matches crate::map::ValueView::Num(v) && v == n),
        step_of(map, (name, WrittenView::Text(words))) matches Ok(step) ==> match step.desired {
            crate::map::ValueView::Num(v) => step.param.labels@.contains_key(v)
                && step.param.labels@[v]@ == words,
            crate::map::ValueView::Raw(bytes) => step.param.encoding is Raw && hex::parsed_hex(words)
                == Ok::<Seq<u8>, Seq<char>>(bytes) && forall|k: u32| #[trigger]
                step.param.labels@.contains_key(k) ==> step.param.labels@[k]@ != words,
        },
{
    if let Some(param) = crate::map::named(map.params@, name) {
        crate::map::law_label_stands_for_its_value(param.labels@, words);
    }
}

/// A number has a step exactly where its parameter is there, can be written, and takes
/// the number.
pub proof fn law_number_is_planned_where_it_is_taken(map: AddressMap, name: Seq<char>, n: i64)
    ensures
        step_of(map, (name, WrittenView::Num(n))) is Ok <==> (crate::map::named(
            map.params@,
            name,
        ) matches Some(param) && param.write_address is Some && 0 <= n <= u32::MAX
            && param.objection(crate::map::ValueView::Num(n as u32)) is None),
{
}

/// A label has a step exactly where its parameter is there, can be written, and takes
/// the smallest number with that label.
pub proof fn law_label_is_planned_where_it_is_taken(
    map: AddressMap,
    name: Seq<char>,
    words: Seq<char>,
    v: u32,
)
    requires
        crate::map::named(map.params@, name) matches Some(param) && param.labels@.contains_key(v)
            && param.labels@[v]@ == words && forall|k: u32| #[trigger]
            param.labels@.contains_key(k) && param.labels@[k]@ == words ==> v <= k,
    ensures
        ({
            let param = crate::map::named(map.params@, name)->0;
            let planned = step_of(map, (name, WrittenView::Text(words)));
            &&& planned is Ok <==> param.write_address is Some && param.objection(
                crate::map::ValueView::Num(v),
            ) is None
            &&& planned matches Ok(step) ==> step.desired == crate::map::ValueView::Num(v)
        }),
{
    let param = crate::map::named(map.params@, name)->0;
    crate::map::law_label_stands_for_its_value(param.labels@, words);
}

/// The bytes that a text spells have a step exactly where their parameter is there, can
/// be written, is raw and takes them.
pub proof fn law_bytes_are_planned_where_they_are_taken(
    map: AddressMap,
    name: Seq<char>,
    words: Seq<char>,
)
    requires
        crate::map::named(map.params@, name) matches Some(param) && forall|k: u32| #[trigger]
            param.labels@.contains_key(k) ==> param.labels@[k]@ != words,
    ensures
        ({
            let param = crate::map::named(map.params@, name)->0;
            step_of(map, (name, WrittenView::Text(words))) is Ok <==> param.write_address is Some
                && param.encoding is Raw && (hex::parsed_hex(words) matches Ok(bytes)
                && param.objection(crate::map::ValueView::Raw(bytes)) is None)
        }),
{
    let param = crate::map::named(map.params@, name)->0;
    crate::map::law_label_stands_for_its_value(param.labels@, words);
}

/// A step is about the parameter of its name, which can be written and takes the desired
/// value; its present value is read from the parameter itself where that can be read,
/// else from the one that it is verified with, else from none. Its frame is a write of
/// the value's bytes at the write address, for the map's device.
pub proof fn law_step_is_about_its_parameter(map: AddressMap, entry: (Seq<char>, WrittenView))
    requires
        step_of(map, entry) is Ok,
    ensures
        ({
            let step = step_of(map, entry)->Ok_0;
            &&& step.param.name@ == entry.0
            &&& map.params@.contains(step.param)
            &&& step.param.write_address is Some
            &&& step.param.objection(step.desired) is None
            &&& step.param.read_address is Some ==> step.current_from == Some(step.param)
            &&& step.param.read_address is None && step.param.verify_with is Some
                ==> step.current_from == crate::map::named(
                map.params@,
                step.param.verify_with->0@,
            )
            &&& step.param.read_address is None && step.param.verify_with is None
                ==> step.current_from is None
            &&& step.param.encoded(step.desired) matches Some(bytes) && step.frame
                == sysex::dt1_frame(
                map.device.model_id@,
                map.device.device_id_default,
                step.param.write_address->0@,
                bytes,
            )
        }),
{
    crate::map::lemma_named(map.params@, entry.0);
    let step = step_of(map, entry)->Ok_0;
    crate::map::law_accepted_value_reads_back(step.param, step.desired);
}

/// A profile holds, for each name, the value that was written last under it, and no
/// other name.
pub proof fn law_last_value_of_a_name_counts(
    list: Seq<(Seq<char>, WrittenView)>,
    i: int,
    name: Seq<char>,
)
    ensures
        table(list).contains_key(name) <==> exists|k: int|
            0 <= k < list.len() && (#[trigger] list[k]).0 == name,
        0 <= i < list.len() && list[i].0 == name && (forall|k: int|
            i < k < list.len() ==> (#[trigger] list[k]).0 != name) ==> table(list)[name]
            == list[i].1,
    decreases list.len(),
{
    if list.len() > 0 {
        let before = list.drop_last();
        let n = list.len() - 1;
        assert(list[n] == list.last());
        law_last_value_of_a_name_counts(before, i, name);
        if table(before).contains_key(name) {
            let k = choose|k: int| 0 <= k < before.len() && (#[trigger] before[k]).0 == name;
            assert(list[k].0 == name);
        }
        if exists|k: int| 0 <= k < list.len() && (#[trigger] list[k]).0 == name {
            let k = choose|k: int| 0 <= k < list.len() && (#[trigger] list[k]).0 == name;
            if k < n {
                assert(before[k].0 == name);
            }
        }
        if 0 <= i < n && list[i].0 == name && (forall|k: int|
            i < k < list.len() ==> (#[trigger] list[k]).0 != name) {
            assert(before[i] == list[i]);
            assert forall|k: int| i < k < before.len() implies (#[trigger] before[k]).0 != name by {
                assert(before[k] == list[k]);
            }
            assert(list[n].0 != name);
        }
    }
}

/// The steps and the obstacles come in the order of the entries, each entry for one of
/// them.
pub proof fn law_plan_keeps_the_order(map: AddressMap, entries: Seq<(Seq<char>, WrittenView)>)
    ensures
        steps_of(map, entries) == entries.filter(
            |e: (Seq<char>, WrittenView)| step_of(map, e) is Ok,
        ).map_values(|e: (Seq<char>, WrittenView)| step_of(map, e)->Ok_0),
        obstacles(map, entries) == entries.filter(
            |e: (Seq<char>, WrittenView)| step_of(map, e) is Err,
        ).map_values(|e: (Seq<char>, WrittenView)| step_of(map, e)->Err_0),
    decreases entries.len(),
{
    reveal(Seq::filter);
    let good = |e: (Seq<char>, WrittenView)| step_of(map, e) is Ok;
    let bad = |e: (Seq<char>, WrittenView)| step_of(map, e) is Err;
    let value = |e: (Seq<char>, WrittenView)| step_of(map, e)->Ok_0;
    let fault = |e: (Seq<char>, WrittenView)| step_of(map, e)->Err_0;
    if entries.len() > 0 {
        law_plan_keeps_the_order(map, entries.drop_last());
        assert(steps_of(map, entries) =~= entries.filter(good).map_values(value));
        assert(obstacles(map, entries) =~= entries.filter(bad).map_values(fault));
    } else {
        assert(steps_of(map, entries) =~= entries.filter(good).map_values(value));
        assert(obstacles(map, entries) =~= entries.filter(bad).map_values(fault));
    }
}

/// An obstacle begins with the name that it is about.
pub proof fn law_obstacle_begins_with_its_name(map: AddressMap, entry: (Seq<char>, WrittenView))
    requires
        step_of(map, entry) is Err,
    ensures
        ({
            let e = step_of(map, entry)->Err_0;
            let n = entry.0.len() as int;
            &&& e.len() > n + 1
            &&& e.take(n) == entry.0
            &&& e[n] == ':' && e[n + 1] == ' '
        }),
{
    reveal_strlit(": no such parameter in the map");
    reveal_strlit(": is read-only");
    reveal_strlit(": ");
    let e = step_of(map, entry)->Err_0;
    let n = entry.0.len() as int;
    assert(e.take(n) =~= entry.0);
}

/// A number below zero, or above what 32 bits hold, is refused as such, whatever the
/// parameter; any other number is refused only where the parameter objects to it.
pub proof fn law_number_is_refused_for_its_size(param: Param, n: i64)
    ensures
        n < 0 ==> resolved(param, WrittenView::Num(n)) == Err::<crate::map::ValueView, Seq<char>>(
            text::dec_int(n as int) + " is negative; values start at 0"@,
        ),
        n > 4_294_967_295 ==> resolved(param, WrittenView::Num(n)) == Err::<
            crate::map::ValueView,
            Seq<char>,
        >(text::dec_int(n as int) + " is too large; maximum is "@ + text::dec(4_294_967_295)),
        0 <= n <= 4_294_967_295 ==> {
            let value = crate::map::ValueView::Num(n as u32);
            match param.objection(value) {
                None => resolved(param, WrittenView::Num(n)) == Ok::<
                    crate::map::ValueView,
                    Seq<char>,
                >(value),
                Some(e) => resolved(param, WrittenView::Num(n)) == Err::<
                    crate::map::ValueView,
                    Seq<char>,
                >(param.shown(value) + " "@ + e),
            }
        },
{
}

/// A text that is neither a label nor bytes is refused: of a parameter with labels by
/// what they are, of one without as no number.
pub proof fn law_text_is_refused_for_what_it_is_not(param: Param, words: Seq<char>)
    requires
        !(param.encoding is Raw),
        forall|k: u32| #[trigger] param.labels@.contains_key(k) ==> param.labels@[k]@ != words,
    ensures
        (forall|k: u32| !#[trigger] param.labels@.contains_key(k)) ==> resolved(
            param,
            WrittenView::Text(words),
        ) == Err::<crate::map::ValueView, Seq<char>>(text::quoted(words) + " is not a number"@),
        (exists|k: u32| #[trigger] param.labels@.contains_key(k)) ==> resolved(
            param,
            WrittenView::Text(words),
        ) == Err::<crate::map::ValueView, Seq<char>>(
            text::quoted(words) + " is not one of "@ + crate::map::labels_text(param.labels@),
        ),
{
    crate::map::law_label_stands_for_its_value(param.labels@, words);
    crate::map::lemma_labels_or_none(param.labels@);
}

} // verus!
