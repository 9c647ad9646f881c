use crate::namemap::NameMap;
use crate::numbers::Real;
use crate::text::str_eq;
use vstd::prelude::*;

verus! {

/// Two name lists that read alike, position for position.
pub open spec fn names_like(a: Seq<String>, b: Seq<String>) -> bool {
    a.len() == b.len() && forall|i: int| 0 <= i < a.len() ==> (#[trigger] a[i])@ == b[i]@
}

/// Compares two name lists by their text.
pub fn names_equal(a: &Vec<String>, b: &Vec<String>) -> (r: bool)
    ensures
        r == names_like(a@, b@),
{
    if a.len() != b.len() {
        return false;
    }
    let n = a.len();
    let mut i: usize = 0;
    while i < n
        invariant
            i <= n,
            n == a@.len(),
            n == b@.len(),
            forall|j: int| 0 <= j < i ==> (#[trigger] a@[j])@ == b@[j]@,
        decreases n - i,
    {
        if !str_eq(a[i].as_str(), b[i].as_str()) {
            return false;
        }
        i = i + 1;
    }
    true
}

/// Two byte lists with equal content.
pub open spec fn bytes_like(a: Seq<u8>, b: Seq<u8>) -> bool {
    a.len() == b.len() && forall|i: int| 0 <= i < a.len() ==> (#[trigger] a[i]) == b[i]
}

/// Compares two byte lists.
pub fn bytes_equal(a: &Vec<u8>, b: &Vec<u8>) -> (r: bool)
    ensures
        r == bytes_like(a@, b@),
{
    if a.len() != b.len() {
        return false;
    }
    let n = a.len();
    let mut i: usize = 0;
    while i < n
        invariant
            i <= n,
            n == a@.len(),
            n == b@.len(),
            forall|j: int| 0 <= j < i ==> (#[trigger] a@[j]) == b@[j],
        decreases n - i,
    {
        if a[i] != b[i] {
            return false;
        }
        i = i + 1;
    }
    true
}

/// The widest signal the format allows, in bits.
pub const MAX_SIGNAL_WIDTH: u16 = 64;

/// Sentinel for a signal whose frame-bit offset has not been assigned yet.
pub const BIT_START_INVALID: u16 = u16::MAX;

/// One way to translate a signal's raw value, in priority order: enum
/// mappings first, scalar ranges as fallback.
#[derive(Debug)]
pub enum Encoding {
    /// `actual = scale * raw + offset`, valid for raw in `[raw_min, raw_max]`.
    Scalar { raw_min: u64, raw_max: u64, scale: Real, offset: Real, unit: String },
    /// Named raw values.
    Enum { name: String, map: NameMap<u64> },
}

/*
 * Allocation with mixed endian can get confusing. Here's an example mask for
 * an 8-bit signal across 2 bytes.
 *  little - bit_start=4, bit_width=8, F0 0F
 *  big    - bit_start=3, bit_width=8, 0F F0
 *
 * Little-endian counts up as expected since bit_start encodes the LSB, but
 * big-endian counts down in a sawtooth pattern since bit_start encodes the MSB.
 */
#[derive(Debug)]
pub struct Signal {
    pub signed: bool,
    pub little_endian: bool,
    pub bit_start: u16,
    pub bit_width: u16,
    pub init_value: u64,
    pub encodings: Vec<Encoding>,
}

impl Signal {
    /// The data-model invariant: a signal never exceeds [`MAX_SIGNAL_WIDTH`].
    pub open spec fn wf(self) -> bool {
        self.bit_width <= MAX_SIGNAL_WIDTH
    }
}

/// An unconditional frame: its sender, protected id, byte width, and the
/// names of the signals laid out in it.  `mux_signals` is reserved for
/// multiplexed signal groups, which the current grammar never fills.
#[derive(Debug)]
pub struct Message {
    pub sender: String,
    pub id: u32,
    pub byte_width: u16,
    pub signals: Vec<String>,
    pub mux_signals: NameMap<(u64, Vec<String>)>,
}

impl Message {
    /// Every signal placed in the frame is a declared signal whose frame-bit
    /// offset has been assigned.
    pub open spec fn refs_ok(self, signals: NameMap<Signal>) -> bool {
        forall|k: int|
            0 <= k < self.signals@.len() ==> signals.contains_key((#[trigger] self.signals@[k])@)
                && signals.spec_get(self.signals@[k]@).bit_start != BIT_START_INVALID
    }
}

/// Per-responder (slave node) data.
#[derive(Debug)]
pub struct LINResponderData {
    pub subscribed_signals: Vec<String>,
    pub configured_nad: u8,
    pub initial_nad: Option<u8>,
    /// supplier, function, variant
    pub product_id: Option<(u16, u16, u8)>,
    pub response_error: Option<String>,
    pub configurable_frames: Vec<(String, Option<u16>)>,
}

impl Default for LINResponderData {
    fn default() -> (r: LINResponderData)
        ensures
            r.subscribed_signals@ =~= Seq::<String>::empty(),
            r.configured_nad == 0,
            r.initial_nad is None,
            r.product_id is None,
            r.response_error is None,
            r.configurable_frames@ =~= Seq::<(String, Option<u16>)>::empty(),
    {
        LINResponderData {
            subscribed_signals: Vec::new(),
            configured_nad: 0,
            initial_nad: None,
            product_id: None,
            response_error: None,
            configurable_frames: Vec::new(),
        }
    }
}

impl LINResponderData {
    /// Every name the responder's data points at is declared: subscribed and
    /// response-error signals exist, and configurable frames name an
    /// unconditional frame or an event-triggered group.
    pub open spec fn refs_ok(
        self,
        signals: NameMap<Signal>,
        messages: NameMap<Message>,
        event_frames: NameMap<(String, u32, Vec<String>)>,
    ) -> bool {
        &&& forall|k: int|
            0 <= k < self.subscribed_signals@.len() ==> signals.contains_key(
                (#[trigger] self.subscribed_signals@[k])@,
            )
        &&& match self.response_error {
            Some(n) => signals.contains_key(n@),
            None => true,
        }
        &&& forall|k: int|
            0 <= k < self.configurable_frames@.len() ==> {
                let f = (#[trigger] self.configurable_frames@[k]).0;
                messages.contains_key(f@) || event_frames.contains_key(f@)
            }
    }
}

/// One slot of a schedule table.
#[derive(Debug)]
pub enum LDFScheduleCommand {
    /// An unconditional frame, a sporadic group, or an event-triggered group.
    Frame(String),
    /// The commander-request diagnostic slot.
    CommanderReq,
    /// The responder-response diagnostic slot.
    ResponderResp,
    AssignNAD(String),
    ConditionalChangeNAD { nad: u8, id: u8, byte: u8, mask: u8, inv: u8, new_nad: u8 },
    /// `data` holds the five raw bytes D1-D5.
    DataDump { name: String, data: Vec<u8> },
    SaveConfiguration(String),
    /// `pid` holds the four raw protected-id bytes.
    AssignFrameIdRange { name: String, index: u8, pid: Vec<u8> },
    /// Eight raw bytes.
    FreeFormat(Vec<u8>),
    AssignFrameId { node: String, frame: String },
}

impl LDFScheduleCommand {
    /// Cross-references and fixed byte counts of one schedule command.
    pub open spec fn refs_ok(
        self,
        messages: NameMap<Message>,
        sporadic_frames: NameMap<Vec<String>>,
        event_frames: NameMap<(String, u32, Vec<String>)>,
        responders: NameMap<LINResponderData>,
    ) -> bool {
        match self {
            LDFScheduleCommand::Frame(n) => messages.contains_key(n@) || sporadic_frames.contains_key(
                n@,
            ) || event_frames.contains_key(n@),
            LDFScheduleCommand::CommanderReq => true,
            LDFScheduleCommand::ResponderResp => true,
            LDFScheduleCommand::AssignNAD(n) => responders.contains_key(n@),
            LDFScheduleCommand::ConditionalChangeNAD { .. } => true,
            LDFScheduleCommand::DataDump { name, data } => responders.contains_key(name@)
                && data@.len() == 5,
            LDFScheduleCommand::SaveConfiguration(n) => responders.contains_key(n@),
            LDFScheduleCommand::AssignFrameIdRange { name, index: _, pid } => responders.contains_key(
                name@,
            ) && pid@.len() == 4,
            LDFScheduleCommand::FreeFormat(d) => d@.len() == 8,
            LDFScheduleCommand::AssignFrameId { node, frame } => responders.contains_key(node@)
                && messages.contains_key(frame@),
        }
    }
}

/// Network-level data of an LDF database.
#[derive(Debug)]
pub struct LDFData {
    /// Bits per second.
    pub bitrate: Real,
    /// Channel-name postfix.
    pub postfix: String,
    /// The single commander (master) node.
    pub commander: String,
    /// Milliseconds.
    pub time_base: Real,
    /// Milliseconds.
    pub jitter: Real,
    pub responders: NameMap<LINResponderData>,
    /// Group name to the ordered constituent frames, all sent by the commander.
    pub sporadic_frames: NameMap<Vec<String>>,
    /// Group name to (collision-resolving schedule table, id, constituent frames).
    pub event_frames: NameMap<(String, u32, Vec<String>)>,
    /// Table name to the ordered (command, delay in ms) slots.
    pub schedule_tables: NameMap<Vec<(LDFScheduleCommand, Real)>>,
}

impl Default for LDFData {
    fn default() -> (r: LDFData)
        ensures
            r.bitrate == (Real { neg: false, mantissa: 0, exp10: 0 }),
            r.postfix@ =~= Seq::<char>::empty(),
            r.commander@ =~= Seq::<char>::empty(),
            r.time_base == (Real { neg: false, mantissa: 0, exp10: 0 }),
            r.jitter == (Real { neg: false, mantissa: 0, exp10: 0 }),
            r.responders.entries@ =~= Seq::<(String, LINResponderData)>::empty(),
            r.sporadic_frames.entries@ =~= Seq::<(String, Vec<String>)>::empty(),
            r.event_frames.entries@ =~= Seq::<(String, (String, u32, Vec<String>))>::empty(),
            r.schedule_tables.entries@ =~= Seq::<
                (String, Vec<(LDFScheduleCommand, Real)>),
            >::empty(),
    {
        LDFData {
            bitrate: Real { neg: false, mantissa: 0, exp10: 0 },
            postfix: String::new(),
            commander: String::new(),
            time_base: Real { neg: false, mantissa: 0, exp10: 0 },
            jitter: Real { neg: false, mantissa: 0, exp10: 0 },
            responders: NameMap::new(),
            sporadic_frames: NameMap::new(),
            event_frames: NameMap::new(),
            schedule_tables: NameMap::new(),
        }
    }
}

/// Every frame of a sporadic group exists, is sent by the commander, and is
/// named once; a group lists at least one frame.
pub open spec fn sporadic_group_ok(
    frames: Vec<String>,
    messages: NameMap<Message>,
    commander: Seq<char>,
) -> bool {
    &&& frames@.len() >= 1
    &&& forall|k: int|
        0 <= k < frames@.len() ==> messages.contains_key((#[trigger] frames@[k])@)
    &&& forall|k: int|
        0 <= k < frames@.len() ==> messages.spec_get((#[trigger] frames@[k])@).sender@ == commander
    &&& forall|k1: int, k2: int|
        0 <= k1 < k2 < frames@.len() ==> (#[trigger] frames@[k1])@ != (#[trigger] frames@[k2])@
}

/// Every frame of an event-triggered group is a known unconditional frame,
/// is named once, and all share one byte width.
pub open spec fn event_group_ok(group: (String, u32, Vec<String>), messages: NameMap<Message>) -> bool {
    let frames = group.2;
    &&& forall|k: int|
        0 <= k < frames@.len() ==> messages.contains_key((#[trigger] frames@[k])@)
    &&& forall|k1: int, k2: int|
        0 <= k1 < k2 < frames@.len() ==> (#[trigger] frames@[k1])@ != (#[trigger] frames@[k2])@
    &&& forall|k: int|
        0 <= k < frames@.len() ==> messages.spec_get((#[trigger] frames@[k])@).byte_width
            == messages.spec_get(frames@[0]@).byte_width
}

impl LDFData {
    /// Cross-references of the network data against the declared signals and
    /// frames, plus well-formedness of its own tables.
    pub open spec fn refs_ok(self, signals: NameMap<Signal>, messages: NameMap<Message>) -> bool {
        &&& self.responders.wf()
        &&& self.sporadic_frames.wf()
        &&& self.event_frames.wf()
        &&& self.schedule_tables.wf()
        &&& forall|i: int|
            0 <= i < self.responders.entries@.len() ==> (#[trigger] self.responders.entries@[i]).1.refs_ok(
                signals,
                messages,
                self.event_frames,
            )
        &&& forall|i: int|
            0 <= i < self.sporadic_frames.entries@.len() ==> sporadic_group_ok(
                (#[trigger] self.sporadic_frames.entries@[i]).1,
                messages,
                self.commander@,
            )
        &&& forall|i: int|
            0 <= i < self.event_frames.entries@.len() ==> event_group_ok(
                (#[trigger] self.event_frames.entries@[i]).1,
                messages,
            )
        &&& forall|i: int, k: int|
            0 <= i < self.schedule_tables.entries@.len() && 0 <= k
                < self.schedule_tables.entries@[i].1@.len() ==> (
            #[trigger] self.schedule_tables.entries@[i].1@[k]).0.refs_ok(
                messages,
                self.sporadic_frames,
                self.event_frames,
                self.responders,
            )
    }
}

/// Which dialect the database came from.  This parser only produces `LDF`.
#[derive(Debug)]
pub enum DatabaseType {
    NCF,
    LDF(LDFData),
    DBC,
}

impl Default for DatabaseType {
    fn default() -> (r: DatabaseType)
        ensures
            r is NCF,
    {
        DatabaseType::NCF
    }
}

/// The parsed network database.
#[derive(Debug)]
pub struct Database {
    pub signals: NameMap<Signal>,
    pub messages: NameMap<Message>,
    pub extra: DatabaseType,
}

impl Default for Database {
    fn default() -> (r: Database)
        ensures
            r.signals.entries@ =~= Seq::<(String, Signal)>::empty(),
            r.messages.entries@ =~= Seq::<(String, Message)>::empty(),
            r.extra is NCF,
    {
        Database { signals: NameMap::new(), messages: NameMap::new(), extra: DatabaseType::NCF }
    }
}

impl Database {
    /// The invariants a successful parse establishes: name tables are
    /// well-formed, every signal respects the width cap, every frame's signal
    /// list references declared signals, and the network data's own
    /// cross-references all resolve.
    pub open spec fn wf(self) -> bool {
        &&& self.signals.wf()
        &&& self.messages.wf()
        &&& forall|i: int|
            0 <= i < self.signals.entries@.len() ==> (#[trigger] self.signals.entries@[i]).1.wf()
        &&& forall|i: int|
            0 <= i < self.messages.entries@.len() ==> (#[trigger] self.messages.entries@[i]).1.refs_ok(
                self.signals,
            )
        &&& match self.extra {
            DatabaseType::LDF(d) => d.refs_ok(self.signals, self.messages),
            DatabaseType::NCF => true,
            DatabaseType::DBC => true,
        }
    }
}

/// Name-to-number tables with the same entries in the same order.
pub open spec fn u64_map_like(a: NameMap<u64>, b: NameMap<u64>) -> bool {
    &&& a.entries@.len() == b.entries@.len()
    &&& forall|i: int|
        0 <= i < a.entries@.len() ==> {
            &&& (#[trigger] a.entries@[i]).0@ == b.entries@[i].0@
            &&& a.entries@[i].1 == b.entries@[i].1
        }
}

fn u64_map_equal(a: &NameMap<u64>, b: &NameMap<u64>) -> (r: bool)
    ensures
        r == u64_map_like(*a, *b),
{
    if a.entries.len() != b.entries.len() {
        return false;
    }
    let n = a.entries.len();
    let mut i: usize = 0;
    while i < n
        invariant
            i <= n,
            n == a.entries@.len(),
            n == b.entries@.len(),
            forall|j: int|
                0 <= j < i ==> (#[trigger] a.entries@[j]).0@ == b.entries@[j].0@
                    && a.entries@[j].1 == b.entries@[j].1,
        decreases n - i,
    {
        if !str_eq(a.entries[i].0.as_str(), b.entries[i].0.as_str()) {
            return false;
        }
        if a.entries[i].1 != b.entries[i].1 {
            return false;
        }
        i = i + 1;
    }
    true
}

impl Encoding {
    /// Field-for-field agreement, strings by their text.
    pub open spec fn like(self, other: Encoding) -> bool {
        match (self, other) {
            (
                Encoding::Scalar { raw_min: a1, raw_max: a2, scale: a3, offset: a4, unit: a5 },
                Encoding::Scalar { raw_min: b1, raw_max: b2, scale: b3, offset: b4, unit: b5 },
            ) => a1 == b1 && a2 == b2 && a3 == b3 && a4 == b4 && a5@ == b5@,
            (
                Encoding::Enum { name: a1, map: a2 },
                Encoding::Enum { name: b1, map: b2 },
            ) => a1@ == b1@ && u64_map_like(a2, b2),
            _ => false,
        }
    }

    pub fn equals(&self, other: &Encoding) -> (r: bool)
        ensures
            r == self.like(*other),
    {
        match (self, other) {
            (
                Encoding::Scalar { raw_min: a1, raw_max: a2, scale: a3, offset: a4, unit: a5 },
                Encoding::Scalar { raw_min: b1, raw_max: b2, scale: b3, offset: b4, unit: b5 },
            ) => *a1 == *b1 && *a2 == *b2 && *a3 == *b3 && *a4 == *b4 && str_eq(
                a5.as_str(),
                b5.as_str(),
            ),
            (Encoding::Enum { name: a1, map: a2 }, Encoding::Enum { name: b1, map: b2 }) => str_eq(
                a1.as_str(),
                b1.as_str(),
            ) && u64_map_equal(a2, b2),
            _ => false,
        }
    }
}

impl Signal {
    /// Field-for-field agreement, encodings position for position.
    pub open spec fn like(self, other: Signal) -> bool {
        &&& self.signed == other.signed
        &&& self.little_endian == other.little_endian
        &&& self.bit_start == other.bit_start
        &&& self.bit_width == other.bit_width
        &&& self.init_value == other.init_value
        &&& self.encodings@.len() == other.encodings@.len()
        &&& forall|i: int|
            0 <= i < self.encodings@.len() ==> (#[trigger] self.encodings@[i]).like(
                other.encodings@[i],
            )
    }

    pub fn equals(&self, other: &Signal) -> (r: bool)
        ensures
            r == self.like(*other),
    {
        if self.signed != other.signed || self.little_endian != other.little_endian
            || self.bit_start != other.bit_start || self.bit_width != other.bit_width
            || self.init_value != other.init_value || self.encodings.len()
            != other.encodings.len() {
            return false;
        }
        let n = self.encodings.len();
        let mut i: usize = 0;
        while i < n
            invariant
                i <= n,
                n == self.encodings@.len(),
                n == other.encodings@.len(),
                forall|j: int|
                    0 <= j < i ==> (#[trigger] self.encodings@[j]).like(other.encodings@[j]),
            decreases n - i,
        {
            if !self.encodings[i].equals(&other.encodings[i]) {
                return false;
            }
            i = i + 1;
        }
        true
    }
}

/// Multiplexed-group tables with the same entries in the same order.
pub open spec fn mux_map_like(
    a: NameMap<(u64, Vec<String>)>,
    b: NameMap<(u64, Vec<String>)>,
) -> bool {
    &&& a.entries@.len() == b.entries@.len()
    &&& forall|i: int|
        0 <= i < a.entries@.len() ==> {
            &&& (#[trigger] a.entries@[i]).0@ == b.entries@[i].0@
            &&& a.entries@[i].1.0 == b.entries@[i].1.0
            &&& names_like(a.entries@[i].1.1@, b.entries@[i].1.1@)
        }
}

fn mux_map_equal(a: &NameMap<(u64, Vec<String>)>, b: &NameMap<(u64, Vec<String>)>) -> (r: bool)
    ensures
        r == mux_map_like(*a, *b),
{
    if a.entries.len() != b.entries.len() {
        return false;
    }
    let n = a.entries.len();
    let mut i: usize = 0;
    while i < n
        invariant
            i <= n,
            n == a.entries@.len(),
            n == b.entries@.len(),
            forall|j: int|
                0 <= j < i ==> (#[trigger] a.entries@[j]).0@ == b.entries@[j].0@
                    && a.entries@[j].1.0 == b.entries@[j].1.0 && names_like(
                    a.entries@[j].1.1@,
                    b.entries@[j].1.1@,
                ),
        decreases n - i,
    {
        if !str_eq(a.entries[i].0.as_str(), b.entries[i].0.as_str()) {
            return false;
        }
        if a.entries[i].1.0 != b.entries[i].1.0 {
            return false;
        }
        if !names_equal(&a.entries[i].1.1, &b.entries[i].1.1) {
            return false;
        }
        i = i + 1;
    }
    true
}

impl Message {
    /// Field-for-field agreement, the signal list in order.
    pub open spec fn like(self, other: Message) -> bool {
        &&& self.sender@ == other.sender@
        &&& self.id == other.id
        &&& self.byte_width == other.byte_width
        &&& names_like(self.signals@, other.signals@)
        &&& mux_map_like(self.mux_signals, other.mux_signals)
    }

    pub fn equals(&self, other: &Message) -> (r: bool)
        ensures
            r == self.like(*other),
    {
        str_eq(self.sender.as_str(), other.sender.as_str()) && self.id == other.id
            && self.byte_width == other.byte_width && names_equal(&self.signals, &other.signals)
            && mux_map_equal(&self.mux_signals, &other.mux_signals)
    }
}

impl LINResponderData {
    /// Field-for-field agreement, lists in order.
    pub open spec fn like(self, other: LINResponderData) -> bool {
        &&& names_like(self.subscribed_signals@, other.subscribed_signals@)
        &&& self.configured_nad == other.configured_nad
        &&& self.initial_nad == other.initial_nad
        &&& self.product_id == other.product_id
        &&& match (self.response_error, other.response_error) {
            (Some(a), Some(b)) => a@ == b@,
            (None, None) => true,
            _ => false,
        }
        &&& self.configurable_frames@.len() == other.configurable_frames@.len()
        &&& forall|i: int|
            0 <= i < self.configurable_frames@.len() ==> {
                &&& (#[trigger] self.configurable_frames@[i]).0@
                    == other.configurable_frames@[i].0@
                &&& self.configurable_frames@[i].1 == other.configurable_frames@[i].1
            }
    }

    pub fn equals(&self, other: &LINResponderData) -> (r: bool)
        ensures
            r == self.like(*other),
    {
        if !names_equal(&self.subscribed_signals, &other.subscribed_signals) {
            return false;
        }
        if self.configured_nad != other.configured_nad {
            return false;
        }
        let nad_same = match (self.initial_nad, other.initial_nad) {
            (Some(a), Some(b)) => a == b,
            (None, None) => true,
            _ => false,
        };
        if !nad_same {
            return false;
        }
        let pid_same = match (self.product_id, other.product_id) {
            (Some(a), Some(b)) => a.0 == b.0 && a.1 == b.1 && a.2 == b.2,
            (None, None) => true,
            _ => false,
        };
        if !pid_same {
            return false;
        }
        let re_same = match (&self.response_error, &other.response_error) {
            (Some(a), Some(b)) => str_eq(a.as_str(), b.as_str()),
            (None, None) => true,
            _ => false,
        };
        if !re_same {
            return false;
        }
        if self.configurable_frames.len() != other.configurable_frames.len() {
            return false;
        }
        let n = self.configurable_frames.len();
        let mut i: usize = 0;
        while i < n
            invariant
                i <= n,
                n == self.configurable_frames@.len(),
                n == other.configurable_frames@.len(),
                forall|j: int|
                    0 <= j < i ==> (#[trigger] self.configurable_frames@[j]).0@
                        == other.configurable_frames@[j].0@ && self.configurable_frames@[j].1
                        == other.configurable_frames@[j].1,
            decreases n - i,
        {
            if !str_eq(
                self.configurable_frames[i].0.as_str(),
                other.configurable_frames[i].0.as_str(),
            ) {
                return false;
            }
            let id_same = match (self.configurable_frames[i].1, other.configurable_frames[i].1) {
                (Some(a), Some(b)) => a == b,
                (None, None) => true,
                _ => false,
            };
            if !id_same {
                return false;
            }
            i = i + 1;
        }
        true
    }
}

impl LDFScheduleCommand {
    /// Same variant with the same fields, strings by their text.
    pub open spec fn like(self, other: LDFScheduleCommand) -> bool {
        match (self, other) {
            (LDFScheduleCommand::Frame(a), LDFScheduleCommand::Frame(b)) => a@ == b@,
            (LDFScheduleCommand::CommanderReq, LDFScheduleCommand::CommanderReq) => true,
            (LDFScheduleCommand::ResponderResp, LDFScheduleCommand::ResponderResp) => true,
            (LDFScheduleCommand::AssignNAD(a), LDFScheduleCommand::AssignNAD(b)) => a@ == b@,
            (
                LDFScheduleCommand::ConditionalChangeNAD {
                    nad: a1,
                    id: a2,
                    byte: a3,
                    mask: a4,
                    inv: a5,
                    new_nad: a6,
                },
                LDFScheduleCommand::ConditionalChangeNAD {
                    nad: b1,
                    id: b2,
                    byte: b3,
                    mask: b4,
                    inv: b5,
                    new_nad: b6,
                },
            ) => a1 == b1 && a2 == b2 && a3 == b3 && a4 == b4 && a5 == b5 && a6 == b6,
            (
                LDFScheduleCommand::DataDump { name: a1, data: a2 },
                LDFScheduleCommand::DataDump { name: b1, data: b2 },
            ) => a1@ == b1@ && bytes_like(a2@, b2@),
            (
                LDFScheduleCommand::SaveConfiguration(a),
                LDFScheduleCommand::SaveConfiguration(b),
            ) => a@ == b@,
            (
                LDFScheduleCommand::AssignFrameIdRange { name: a1, index: a2, pid: a3 },
                LDFScheduleCommand::AssignFrameIdRange { name: b1, index: b2, pid: b3 },
            ) => a1@ == b1@ && a2 == b2 && bytes_like(a3@, b3@),
            (LDFScheduleCommand::FreeFormat(a), LDFScheduleCommand::FreeFormat(b)) => bytes_like(
                a@,
                b@,
            ),
            (
                LDFScheduleCommand::AssignFrameId { node: a1, frame: a2 },
                LDFScheduleCommand::AssignFrameId { node: b1, frame: b2 },
            ) => a1@ == b1@ && a2@ == b2@,
            _ => false,
        }
    }

    pub fn equals(&self, other: &LDFScheduleCommand) -> (r: bool)
        ensures
            r == self.like(*other),
    {
        match (self, other) {
            (LDFScheduleCommand::Frame(a), LDFScheduleCommand::Frame(b)) => str_eq(
                a.as_str(),
                b.as_str(),
            ),
            (LDFScheduleCommand::CommanderReq, LDFScheduleCommand::CommanderReq) => true,
            (LDFScheduleCommand::ResponderResp, LDFScheduleCommand::ResponderResp) => true,
            (LDFScheduleCommand::AssignNAD(a), LDFScheduleCommand::AssignNAD(b)) => str_eq(
                a.as_str(),
                b.as_str(),
            ),
            (
                LDFScheduleCommand::ConditionalChangeNAD {
                    nad: a1,
                    id: a2,
                    byte: a3,
                    mask: a4,
                    inv: a5,
                    new_nad: a6,
                },
                LDFScheduleCommand::ConditionalChangeNAD {
                    nad: b1,
                    id: b2,
                    byte: b3,
                    mask: b4,
                    inv: b5,
                    new_nad: b6,
                },
            ) => *a1 == *b1 && *a2 == *b2 && *a3 == *b3 && *a4 == *b4 && *a5 == *b5 && *a6 == *b6,
            (
                LDFScheduleCommand::DataDump { name: a1, data: a2 },
                LDFScheduleCommand::DataDump { name: b1, data: b2 },
            ) => str_eq(a1.as_str(), b1.as_str()) && bytes_equal(a2, b2),
            (
                LDFScheduleCommand::SaveConfiguration(a),
                LDFScheduleCommand::SaveConfiguration(b),
            ) => str_eq(a.as_str(), b.as_str()),
            (
                LDFScheduleCommand::AssignFrameIdRange { name: a1, index: a2, pid: a3 },
                LDFScheduleCommand::AssignFrameIdRange { name: b1, index: b2, pid: b3 },
            ) => str_eq(a1.as_str(), b1.as_str()) && *a2 == *b2 && bytes_equal(a3, b3),
            (LDFScheduleCommand::FreeFormat(a), LDFScheduleCommand::FreeFormat(b)) => bytes_equal(
                a,
                b,
            ),
            (
                LDFScheduleCommand::AssignFrameId { node: a1, frame: a2 },
                LDFScheduleCommand::AssignFrameId { node: b1, frame: b2 },
            ) => str_eq(a1.as_str(), b1.as_str()) && str_eq(a2.as_str(), b2.as_str()),
            _ => false,
        }
    }
}

/// Schedule tables with the same slots in the same order.
pub open spec fn table_like(
    a: Seq<(LDFScheduleCommand, Real)>,
    b: Seq<(LDFScheduleCommand, Real)>,
) -> bool {
    &&& a.len() == b.len()
    &&& forall|i: int|
        0 <= i < a.len() ==> (#[trigger] a[i]).0.like(b[i].0) && a[i].1 == b[i].1
}

fn table_equal(a: &Vec<(LDFScheduleCommand, Real)>, b: &Vec<(LDFScheduleCommand, Real)>) -> (r:
    bool)
    ensures
        r == table_like(a@, b@),
{
    if a.len() != b.len() {
        return false;
    }
    let n = a.len();
    let mut i: usize = 0;
    while i < n
        invariant
            i <= n,
            n == a@.len(),
            n == b@.len(),
            forall|j: int| 0 <= j < i ==> (#[trigger] a@[j]).0.like(b@[j].0) && a@[j].1 == b@[j].1,
        decreases n - i,
    {
        if !a[i].0.equals(&b[i].0) {
            return false;
        }
        if a[i].1 != b[i].1 {
            return false;
        }
        i = i + 1;
    }
    true
}

impl LDFData {
    /// Field-for-field agreement of the network data: plain fields, then the
    /// four name tables entry for entry, in order.
    pub open spec fn like(self, other: LDFData) -> bool {
        &&& self.bitrate == other.bitrate
        &&& self.postfix@ == other.postfix@
        &&& self.commander@ == other.commander@
        &&& self.time_base == other.time_base
        &&& self.jitter == other.jitter
        &&& self.responders.entries@.len() == other.responders.entries@.len()
        &&& forall|i: int|
            0 <= i < self.responders.entries@.len() ==> {
                &&& (#[trigger] self.responders.entries@[i]).0@ == other.responders.entries@[i].0@
                &&& self.responders.entries@[i].1.like(other.responders.entries@[i].1)
            }
        &&& self.sporadic_frames.entries@.len() == other.sporadic_frames.entries@.len()
        &&& forall|i: int|
            0 <= i < self.sporadic_frames.entries@.len() ==> {
                &&& (#[trigger] self.sporadic_frames.entries@[i]).0@
                    == other.sporadic_frames.entries@[i].0@
                &&& names_like(
                    self.sporadic_frames.entries@[i].1@,
                    other.sporadic_frames.entries@[i].1@,
                )
            }
        &&& self.event_frames.entries@.len() == other.event_frames.entries@.len()
        &&& forall|i: int|
            0 <= i < self.event_frames.entries@.len() ==> {
                &&& (#[trigger] self.event_frames.entries@[i]).0@
                    == other.event_frames.entries@[i].0@
                &&& self.event_frames.entries@[i].1.0@ == other.event_frames.entries@[i].1.0@
                &&& self.event_frames.entries@[i].1.1 == other.event_frames.entries@[i].1.1
                &&& names_like(
                    self.event_frames.entries@[i].1.2@,
                    other.event_frames.entries@[i].1.2@,
                )
            }
        &&& self.schedule_tables.entries@.len() == other.schedule_tables.entries@.len()
        &&& forall|i: int|
            0 <= i < self.schedule_tables.entries@.len() ==> {
                &&& (#[trigger] self.schedule_tables.entries@[i]).0@
                    == other.schedule_tables.entries@[i].0@
                &&& table_like(
                    self.schedule_tables.entries@[i].1@,
                    other.schedule_tables.entries@[i].1@,
                )
            }
    }

    pub fn equals(&self, other: &LDFData) -> (r: bool)
        ensures
            r == self.like(*other),
    {
        if self.bitrate != other.bitrate || self.time_base != other.time_base || self.jitter
            != other.jitter {
            return false;
        }
        if !str_eq(self.postfix.as_str(), other.postfix.as_str()) {
            return false;
        }
        if !str_eq(self.commander.as_str(), other.commander.as_str()) {
            return false;
        }
        if self.responders.entries.len() != other.responders.entries.len() {
            return false;
        }
        let nr = self.responders.entries.len();
        let mut i: usize = 0;
        while i < nr
            invariant
                i <= nr,
                nr == self.responders.entries@.len(),
                nr == other.responders.entries@.len(),
                forall|j: int|
                    0 <= j < i ==> (#[trigger] self.responders.entries@[j]).0@
                        == other.responders.entries@[j].0@ && self.responders.entries@[j].1.like(
                        other.responders.entries@[j].1,
                    ),
            decreases nr - i,
        {
            if !str_eq(self.responders.entries[i].0.as_str(), other.responders.entries[i].0.as_str())
            {
                return false;
            }
            if !self.responders.entries[i].1.equals(&other.responders.entries[i].1) {
                return false;
            }
            i = i + 1;
        }
        if self.sporadic_frames.entries.len() != other.sporadic_frames.entries.len() {
            return false;
        }
        let ns = self.sporadic_frames.entries.len();
        let mut i2: usize = 0;
        while i2 < ns
            invariant
                i2 <= ns,
                ns == self.sporadic_frames.entries@.len(),
                ns == other.sporadic_frames.entries@.len(),
                forall|j: int|
                    0 <= j < i2 ==> (#[trigger] self.sporadic_frames.entries@[j]).0@
                        == other.sporadic_frames.entries@[j].0@ && names_like(
                        self.sporadic_frames.entries@[j].1@,
                        other.sporadic_frames.entries@[j].1@,
                    ),
            decreases ns - i2,
        {
            if !str_eq(
                self.sporadic_frames.entries[i2].0.as_str(),
                other.sporadic_frames.entries[i2].0.as_str(),
            ) {
                return false;
            }
            if !names_equal(&self.sporadic_frames.entries[i2].1, &other.sporadic_frames.entries[i2].1)
            {
                return false;
            }
            i2 = i2 + 1;
        }
        if self.event_frames.entries.len() != other.event_frames.entries.len() {
            return false;
        }
        let ne = self.event_frames.entries.len();
        let mut i3: usize = 0;
        while i3 < ne
            invariant
                i3 <= ne,
                ne == self.event_frames.entries@.len(),
                ne == other.event_frames.entries@.len(),
                forall|j: int|
                    0 <= j < i3 ==> (#[trigger] self.event_frames.entries@[j]).0@
                        == other.event_frames.entries@[j].0@ && self.event_frames.entries@[j].1.0@
                        == other.event_frames.entries@[j].1.0@
                        && self.event_frames.entries@[j].1.1 == other.event_frames.entries@[j].1.1
                        && names_like(
                        self.event_frames.entries@[j].1.2@,
                        other.event_frames.entries@[j].1.2@,
                    ),
            decreases ne - i3,
        {
            if !str_eq(
                self.event_frames.entries[i3].0.as_str(),
                other.event_frames.entries[i3].0.as_str(),
            ) {
                return false;
            }
            if !str_eq(
                self.event_frames.entries[i3].1.0.as_str(),
                other.event_frames.entries[i3].1.0.as_str(),
            ) {
                return false;
            }
            if self.event_frames.entries[i3].1.1 != other.event_frames.entries[i3].1.1 {
                return false;
            }
            if !names_equal(&self.event_frames.entries[i3].1.2, &other.event_frames.entries[i3].1.2)
            {
                return false;
            }
            i3 = i3 + 1;
        }
        if self.schedule_tables.entries.len() != other.schedule_tables.entries.len() {
            return false;
        }
        let nt = self.schedule_tables.entries.len();
        let mut i4: usize = 0;
        while i4 < nt
            invariant
                i4 <= nt,
                nt == self.schedule_tables.entries@.len(),
                nt == other.schedule_tables.entries@.len(),
                forall|j: int|
                    0 <= j < i4 ==> (#[trigger] self.schedule_tables.entries@[j]).0@
                        == other.schedule_tables.entries@[j].0@ && table_like(
                        self.schedule_tables.entries@[j].1@,
                        other.schedule_tables.entries@[j].1@,
                    ),
            decreases nt - i4,
        {
            if !str_eq(
                self.schedule_tables.entries[i4].0.as_str(),
                other.schedule_tables.entries[i4].0.as_str(),
            ) {
                return false;
            }
            if !table_equal(&self.schedule_tables.entries[i4].1, &other.schedule_tables.entries[i4].1)
            {
                return false;
            }
            i4 = i4 + 1;
        }
        true
    }
}

impl DatabaseType {
    /// Same dialect, with agreeing network data where one is carried.
    pub open spec fn like(self, other: DatabaseType) -> bool {
        match (self, other) {
            (DatabaseType::NCF, DatabaseType::NCF) => true,
            (DatabaseType::DBC, DatabaseType::DBC) => true,
            (DatabaseType::LDF(a), DatabaseType::LDF(b)) => a.like(b),
            _ => false,
        }
    }

    pub fn equals(&self, other: &DatabaseType) -> (r: bool)
        ensures
            r == self.like(*other),
    {
        match (self, other) {
            (DatabaseType::NCF, DatabaseType::NCF) => true,
            (DatabaseType::DBC, DatabaseType::DBC) => true,
            (DatabaseType::LDF(a), DatabaseType::LDF(b)) => a.equals(b),
            _ => false,
        }
    }
}

impl Database {
    /// Field-for-field agreement of two databases: the signal and message
    /// tables entry for entry, in order, and the dialect data.
    pub open spec fn like(self, other: Database) -> bool {
        &&& self.signals.entries@.len() == other.signals.entries@.len()
        &&& forall|i: int|
            0 <= i < self.signals.entries@.len() ==> {
                &&& (#[trigger] self.signals.entries@[i]).0@ == other.signals.entries@[i].0@
                &&& self.signals.entries@[i].1.like(other.signals.entries@[i].1)
            }
        &&& self.messages.entries@.len() == other.messages.entries@.len()
        &&& forall|i: int|
            0 <= i < self.messages.entries@.len() ==> {
                &&& (#[trigger] self.messages.entries@[i]).0@ == other.messages.entries@[i].0@
                &&& self.messages.entries@[i].1.like(other.messages.entries@[i].1)
            }
        &&& self.extra.like(other.extra)
    }

    pub fn equals(&self, other: &Database) -> (r: bool)
        ensures
            r == self.like(*other),
    {
        if self.signals.entries.len() != other.signals.entries.len() {
            return false;
        }
        let n = self.signals.entries.len();
        let mut i: usize = 0;
        while i < n
            invariant
                i <= n,
                n == self.signals.entries@.len(),
                n == other.signals.entries@.len(),
                forall|j: int|
                    0 <= j < i ==> (#[trigger] self.signals.entries@[j]).0@
                        == other.signals.entries@[j].0@ && self.signals.entries@[j].1.like(
                        other.signals.entries@[j].1,
                    ),
            decreases n - i,
        {
            if !str_eq(self.signals.entries[i].0.as_str(), other.signals.entries[i].0.as_str()) {
                return false;
            }
            if !self.signals.entries[i].1.equals(&other.signals.entries[i].1) {
                return false;
            }
            i = i + 1;
        }
        if self.messages.entries.len() != other.messages.entries.len() {
            return false;
        }
        let m = self.messages.entries.len();
        let mut i2: usize = 0;
        while i2 < m
            invariant
                i2 <= m,
                m == self.messages.entries@.len(),
                m == other.messages.entries@.len(),
                forall|j: int|
                    0 <= j < i2 ==> (#[trigger] self.messages.entries@[j]).0@
                        == other.messages.entries@[j].0@ && self.messages.entries@[j].1.like(
                        other.messages.entries@[j].1,
                    ),
            decreases m - i2,
        {
            if !str_eq(self.messages.entries[i2].0.as_str(), other.messages.entries[i2].0.as_str())
            {
                return false;
            }
            if !self.messages.entries[i2].1.equals(&other.messages.entries[i2].1) {
                return false;
            }
            i2 = i2 + 1;
        }
        self.extra.equals(&other.extra)
    }
}

proof fn lemma_encoding_like_reflexive(e: Encoding)
    ensures
        e.like(e),
{
    match e {
        Encoding::Scalar { .. } => {},
        Encoding::Enum { .. } => {},
    }
}

proof fn lemma_signal_like_reflexive(s: Signal)
    ensures
        s.like(s),
{
    assert forall|i: int| 0 <= i < s.encodings@.len() implies (#[trigger] s.encodings@[i]).like(
        s.encodings@[i],
    ) by {
        lemma_encoding_like_reflexive(s.encodings@[i]);
    }
}

proof fn lemma_command_like_reflexive(c: LDFScheduleCommand)
    ensures
        c.like(c),
{
    match c {
        LDFScheduleCommand::Frame(..) => {},
        LDFScheduleCommand::CommanderReq => {},
        LDFScheduleCommand::ResponderResp => {},
        LDFScheduleCommand::AssignNAD(..) => {},
        LDFScheduleCommand::ConditionalChangeNAD { .. } => {},
        LDFScheduleCommand::DataDump { .. } => {},
        LDFScheduleCommand::SaveConfiguration(..) => {},
        LDFScheduleCommand::AssignFrameIdRange { .. } => {},
        LDFScheduleCommand::FreeFormat(..) => {},
        LDFScheduleCommand::AssignFrameId { .. } => {},
    }
}

proof fn lemma_ldf_data_like_reflexive(d: LDFData)
    ensures
        d.like(d),
{
    assert forall|i: int, k: int|
        0 <= i < d.schedule_tables.entries@.len() && 0 <= k
            < d.schedule_tables.entries@[i].1@.len() implies (
    #[trigger] d.schedule_tables.entries@[i].1@[k]).0.like(
        d.schedule_tables.entries@[i].1@[k].0,
    ) by {
        lemma_command_like_reflexive(d.schedule_tables.entries@[i].1@[k].0);
    }
}

/// The deep comparison is reflexive: a database always compares equal,
/// field for field, with itself.  The parser computes its result from the
/// input text and nothing else, so this is the database-side half of the
/// round-trip property: parsing the identical text twice yields databases
/// that [`Database::equals`] accepts.
pub proof fn lemma_like_reflexive(db: Database)
    ensures
        db.like(db),
{
    assert forall|i: int| 0 <= i < db.signals.entries@.len() implies (
    #[trigger] db.signals.entries@[i]).1.like(db.signals.entries@[i].1) by {
        lemma_signal_like_reflexive(db.signals.entries@[i].1);
    }
    match db.extra {
        DatabaseType::LDF(d) => {
            lemma_ldf_data_like_reflexive(d);
        },
        DatabaseType::NCF => {},
        DatabaseType::DBC => {},
    }
}

} // verus!
