//! Bit- and byte-level 1-Wire link layer, expressed as plans of line actions.
use vstd::prelude::*;

verus! {

/// Low phase of the reset pulse, in microseconds.
pub const RESET_LOW_US: u16 = 480;
/// Wait between releasing the line and sampling for a presence pulse.
pub const PRESENCE_WAIT_US: u16 = 65;
/// Recovery period that ends every reset, whatever was sampled.
pub const RESET_RECOVERY_US: u16 = 415;
/// Short phase of a write slot.
pub const SLOT_SHORT_US: u16 = 1;
/// Long phase of a write slot.
pub const SLOT_LONG_US: u16 = 60;
/// Wait between opening a read slot and sampling the line.
pub const READ_SAMPLE_US: u16 = 20;
/// Rest of a read slot after the sample.
pub const READ_REST_US: u16 = 40;

/// One step that the host performs on the open-drain line.
#[derive(Clone, Copy, Debug, PartialEq, Eq, Structural)]
pub enum LineAction {
    /// Pull the line low.
    DriveLow,
    /// Release the line, letting the pull-up take it high.
    Release,
    /// Read the line level; the level is handed back to a decoder.
    Sample,
    /// Block for at least this many microseconds.
    WaitUs(u16),
}

/// The reset / presence-detect sequence.
pub open spec fn reset_seq() -> Seq<LineAction> {
    seq![
        LineAction::DriveLow,
        LineAction::WaitUs(RESET_LOW_US),
        LineAction::Release,
        LineAction::WaitUs(PRESENCE_WAIT_US),
        LineAction::Sample,
        LineAction::WaitUs(RESET_RECOVERY_US),
    ]
}

/// A write slot: a 1 is a short low phase and a long high phase, a 0 the reverse.
pub open spec fn write_slot(bit: bool) -> Seq<LineAction> {
    if bit {
        seq![
            LineAction::DriveLow,
            LineAction::WaitUs(SLOT_SHORT_US),
            LineAction::Release,
            LineAction::WaitUs(SLOT_LONG_US),
        ]
    } else {
        seq![
            LineAction::DriveLow,
            LineAction::WaitUs(SLOT_LONG_US),
            LineAction::Release,
            LineAction::WaitUs(SLOT_SHORT_US),
        ]
    }
}

/// A read slot: open it, release, sample, then finish the slot.
pub open spec fn read_slot() -> Seq<LineAction> {
    seq![
        LineAction::DriveLow,
        LineAction::WaitUs(SLOT_SHORT_US),
        LineAction::Release,
        LineAction::WaitUs(READ_SAMPLE_US),
        LineAction::Sample,
        LineAction::WaitUs(READ_REST_US),
    ]
}

/// Total time spent waiting in a plan.
pub open spec fn total_wait_us(s: Seq<LineAction>) -> nat
    decreases s.len(),
{
    if s.len() == 0 {
        0
    } else {
        let rest = total_wait_us(s.drop_last());
        match s.last() {
            LineAction::WaitUs(n) => rest + n as nat,
            _ => rest,
        }
    }
}

/// Number of samples a plan takes, i.e. how many levels performing it yields.
pub open spec fn sample_count(s: Seq<LineAction>) -> nat
    decreases s.len(),
{
    if s.len() == 0 {
        0
    } else {
        sample_count(s.drop_last()) + if s.last() == LineAction::Sample { 1nat } else { 0nat }
    }
}

/// Wait of a slot's low phase: the wait that follows its opening `DriveLow`.
pub open spec fn slot_low_us(slot: Seq<LineAction>) -> nat {
    match slot[1] {
        LineAction::WaitUs(n) => n as nat,
        _ => 0,
    }
}

/// Wait of a slot's high phase: the wait that follows its `Release`.
pub open spec fn slot_high_us(slot: Seq<LineAction>) -> nat {
    match slot[3] {
        LineAction::WaitUs(n) => n as nat,
        _ => 0,
    }
}

/// The bit that a device samples early in a write slot: a 1 when the line
/// is low for less time than it is high.
pub open spec fn slot_bit(slot: Seq<LineAction>) -> bool {
    slot_low_us(slot) < slot_high_us(slot)
}

/// The write slots for a sequence of bits, in order.
pub open spec fn write_slots(bits: Seq<bool>) -> Seq<LineAction>
    decreases bits.len(),
{
    if bits.len() == 0 {
        seq![]
    } else {
        write_slots(bits.drop_last()) + write_slot(bits.last())
    }
}

/// The bits that a device reads from a run of four-action write slots.
pub open spec fn wire_bits(s: Seq<LineAction>) -> Seq<bool>
    decreases s.len(),
{
    if s.len() < 4 {
        seq![]
    } else {
        wire_bits(s.subrange(0, s.len() - 4)).push(slot_bit(s.subrange(s.len() - 4, s.len() as int)))
    }
}

/// `n` read slots in a row.
pub open spec fn read_slots(n: nat) -> Seq<LineAction>
    decreases n,
{
    if n == 0 {
        seq![]
    } else {
        read_slots((n - 1) as nat) + read_slot()
    }
}

/// The low `n` bits of `v`, least significant first.
pub open spec fn bits_of(v: nat, n: nat) -> Seq<bool>
    decreases n,
{
    if n == 0 {
        seq![]
    } else {
        seq![v % 2 == 1] + bits_of(v / 2, (n - 1) as nat)
    }
}

/// The number whose binary digits, least significant first, are `bits`.
pub open spec fn value_of_bits(bits: Seq<bool>) -> nat
    decreases bits.len(),
{
    if bits.len() == 0 {
        0
    } else {
        (if bits[0] { 1nat } else { 0nat }) + 2 * value_of_bits(bits.drop_first())
    }
}

/// The slots that write one byte, least significant bit first.
pub open spec fn write_byte_seq(b: u8) -> Seq<LineAction> {
    write_slots(bits_of(b as nat, 8))
}

/// The slots that write a sequence of bytes, in order.
pub open spec fn write_bytes_seq(data: Seq<u8>) -> Seq<LineAction>
    decreases data.len(),
{
    if data.len() == 0 {
        seq![]
    } else {
        write_bytes_seq(data.drop_last()) + write_byte_seq(data.last())
    }
}

/// Two to the power `n`.
pub open spec fn two_pow(n: nat) -> nat
    decreases n,
{
    if n == 0 {
        1
    } else {
        2 * two_pow((n - 1) as nat)
    }
}

/// Whether a reset found a device: a responding device holds the line low
/// while it is sampled.
pub open spec fn presence_of(level_high: bool) -> bool {
    !level_high
}

proof fn lemma_two_pow_mono(a: nat, b: nat)
    requires
        a <= b,
    ensures
        two_pow(a) <= two_pow(b),
    decreases b,
{
    if a < b {
        lemma_two_pow_mono(a, (b - 1) as nat);
    }
}

proof fn lemma_value_bound(bits: Seq<bool>)
    ensures
        value_of_bits(bits) < two_pow(bits.len()),
    decreases bits.len(),
{
    if bits.len() > 0 {
        lemma_value_bound(bits.drop_first());
    }
}

proof fn lemma_value_of_bits_of(v: nat, n: nat)
    requires
        v < two_pow(n),
    ensures
        value_of_bits(bits_of(v, n)) == v,
        bits_of(v, n).len() == n,
    decreases n,
{
    if n > 0 {
        lemma_value_of_bits_of(v / 2, (n - 1) as nat);
        let s = bits_of(v, n);
        assert(s.drop_first() =~= bits_of(v / 2, (n - 1) as nat));
    }
}

proof fn lemma_write_slots_len(bits: Seq<bool>)
    ensures
        write_slots(bits).len() == 4 * bits.len(),
    decreases bits.len(),
{
    if bits.len() > 0 {
        lemma_write_slots_len(bits.drop_last());
    }
}

proof fn lemma_wire_bits_write_slots(bits: Seq<bool>)
    ensures
        wire_bits(write_slots(bits)) == bits,
    decreases bits.len(),
{
    if bits.len() > 0 {
        let init = bits.drop_last();
        let w = write_slots(init);
        let s = write_slots(bits);
        lemma_write_slots_len(init);
        lemma_wire_bits_write_slots(init);
        assert(s.subrange(0, s.len() - 4) =~= w);
        assert(s.subrange(s.len() - 4, s.len() as int) =~= write_slot(bits.last()));
        assert(init.push(bits.last()) =~= bits);
    }
}

proof fn lemma_read_slots_add(a: nat, b: nat)
    ensures
        read_slots(a) + read_slots(b) == read_slots(a + b),
    decreases b,
{
    if b == 0 {
        assert(read_slots(a) + read_slots(0) =~= read_slots(a));
    } else {
        lemma_read_slots_add(a, (b - 1) as nat);
        assert(read_slots(a) + read_slots(b) =~= read_slots(a) + read_slots((b - 1) as nat) + read_slot());
    }
}

/// Samples and waits add up over concatenated plans.
pub proof fn lemma_plan_concat(a: Seq<LineAction>, b: Seq<LineAction>)
    ensures
        sample_count(a + b) == sample_count(a) + sample_count(b),
        total_wait_us(a + b) == total_wait_us(a) + total_wait_us(b),
    decreases b.len(),
{
    if b.len() == 0 {
        assert(a + b =~= a);
    } else {
        lemma_plan_concat(a, b.drop_last());
        assert((a + b).drop_last() =~= a + b.drop_last());
    }
}

/// Each read slot takes exactly one sample, so `n` slots yield `n` levels.
pub proof fn lemma_read_slots_samples(n: nat)
    ensures
        sample_count(read_slots(n)) == n,
    decreases n,
{
    if n > 0 {
        lemma_read_slots_samples((n - 1) as nat);
        lemma_plan_concat(read_slots((n - 1) as nat), read_slot());
        reveal_with_fuel(sample_count, 7);
    }
}

/// Write slots take no samples.
pub proof fn lemma_write_bytes_no_samples(data: Seq<u8>)
    ensures
        sample_count(write_bytes_seq(data)) == 0,
    decreases data.len(),
{
    if data.len() > 0 {
        lemma_write_bytes_no_samples(data.drop_last());
        lemma_write_slots_no_samples(bits_of(data.last() as nat, 8));
        lemma_plan_concat(write_bytes_seq(data.drop_last()), write_byte_seq(data.last()));
    }
}

proof fn lemma_write_slots_no_samples(bits: Seq<bool>)
    ensures
        sample_count(write_slots(bits)) == 0,
    decreases bits.len(),
{
    if bits.len() > 0 {
        lemma_write_slots_no_samples(bits.drop_last());
        lemma_plan_concat(write_slots(bits.drop_last()), write_slot(bits.last()));
        reveal_with_fuel(sample_count, 5);
    }
}

/// Loopback round trip: a device that samples the write slots of `b` reads
/// back eight bits which, taken least significant first as the read slots of
/// a byte are by `decode_byte`, give `b` again; and a byte's read slots take
/// exactly those eight samples.
pub proof fn lemma_loopback_round_trip(b: u8)
    ensures
        wire_bits(write_byte_seq(b)).len() == 8,
        value_of_bits(wire_bits(write_byte_seq(b))) == b as nat,
        sample_count(read_slots(8)) == 8,
{
    reveal_with_fuel(two_pow, 9);
    lemma_value_of_bits_of(b as nat, 8);
    lemma_wire_bits_write_slots(bits_of(b as nat, 8));
    lemma_read_slots_samples(8);
}

/// A write slot encodes its bit in the split of a fixed 61 µs window: for a 1
/// the low phase is shorter than the high phase, for a 0 it is longer; a
/// device sampling the slot reads the bit back.
pub proof fn lemma_write_slot_phases(bit: bool)
    ensures
        bit ==> slot_low_us(write_slot(bit)) < slot_high_us(write_slot(bit)),
        !bit ==> slot_low_us(write_slot(bit)) > slot_high_us(write_slot(bit)),
        total_wait_us(write_slot(bit)) == 61,
        slot_bit(write_slot(bit)) == bit,
{
    reveal_with_fuel(total_wait_us, 5);
}

/// A reset against a line that nobody pulls low (its one sample is high)
/// reports no presence, and still waits the full 480 + 65 + 415 µs.
pub proof fn lemma_reset_without_device()
    ensures
        sample_count(reset_seq()) == 1,
        !presence_of(true),
        total_wait_us(reset_seq()) == 960,
{
    reveal_with_fuel(total_wait_us, 7);
    reveal_with_fuel(sample_count, 7);
}

/// The bus engine: records the line actions of the operations asked of it.
pub struct OneWirePin {
    actions: Vec<LineAction>,
}

impl View for OneWirePin {
    type V = Seq<LineAction>;

    closed spec fn view(&self) -> Seq<LineAction> {
        self.actions@
    }
}

impl OneWirePin {
    /// An engine with nothing planned yet.
    pub fn new() -> (r: OneWirePin)
        ensures
            r@ == Seq::<LineAction>::empty(),
    {
        OneWirePin { actions: Vec::new() }
    }

    /// Plans a reset and presence detection. The one level sampled is low
    /// when a device answered (see `presence_detected`).
    pub fn init(&mut self)
        ensures
            final(self)@ == old(self)@ + reset_seq(),
    {
        self.actions.push(LineAction::DriveLow);
        self.actions.push(LineAction::WaitUs(RESET_LOW_US));
        self.actions.push(LineAction::Release);
        self.actions.push(LineAction::WaitUs(PRESENCE_WAIT_US));
        self.actions.push(LineAction::Sample);
        self.actions.push(LineAction::WaitUs(RESET_RECOVERY_US));
        assert(self@ =~= old(self)@ + reset_seq());
    }

    /// Plans one write slot carrying `bit`.
    pub fn write_bit(&mut self, bit: bool)
        ensures
            final(self)@ == old(self)@ + write_slot(bit),
    {
        let (low, high) = if bit {
            (SLOT_SHORT_US, SLOT_LONG_US)
        } else {
            (SLOT_LONG_US, SLOT_SHORT_US)
        };
        self.actions.push(LineAction::DriveLow);
        self.actions.push(LineAction::WaitUs(low));
        self.actions.push(LineAction::Release);
        self.actions.push(LineAction::WaitUs(high));
        assert(self@ =~= old(self)@ + write_slot(bit));
    }

    /// Plans one read slot; its one sample is the bit read (high is 1).
    pub fn read_bit(&mut self)
        ensures
            final(self)@ == old(self)@ + read_slot(),
    {
        self.actions.push(LineAction::DriveLow);
        self.actions.push(LineAction::WaitUs(SLOT_SHORT_US));
        self.actions.push(LineAction::Release);
        self.actions.push(LineAction::WaitUs(READ_SAMPLE_US));
        self.actions.push(LineAction::Sample);
        self.actions.push(LineAction::WaitUs(READ_REST_US));
        assert(self@ =~= old(self)@ + read_slot());
    }

    /// Plans the eight write slots of `byte`, least significant bit first.
    pub fn write_byte(&mut self, byte: u8)
        ensures
            final(self)@ == old(self)@ + write_byte_seq(byte),
    {
        let mut cur: u8 = byte;
        let ghost mut done: Seq<bool> = seq![];
        let mut i: usize = 0;
        while i < 8
            invariant
                i <= 8,
                done.len() == i,
                bits_of(byte as nat, 8) == done + bits_of(cur as nat, (8 - i) as nat),
                self@ == old(self)@ + write_slots(done),
            decreases 8 - i,
        {
            let bit = (cur & 0x01) == 0x01;
            assert((cur & 0x01 == 0x01) == (cur % 2 == 1)) by (bit_vector);
            assert(cur >> 1 == cur / 2) by (bit_vector);
            self.write_bit(bit);
            proof {
                let rest = bits_of((cur / 2) as nat, (7 - i) as nat);
                assert(bits_of(cur as nat, (8 - i) as nat) == seq![bit] + rest);
                assert(done + (seq![bit] + rest) =~= done.push(bit) + rest);
                assert(done.push(bit).drop_last() =~= done);
                done = done.push(bit);
            }
            cur = cur >> 1;
            i += 1;
        }
        assert(done + bits_of(cur as nat, 0) =~= done);
    }

    /// Plans the write slots of every byte of `data`, in order.
    pub fn write_byte_array(&mut self, data: &[u8])
        ensures
            final(self)@ == old(self)@ + write_bytes_seq(data@),
    {
        let mut i: usize = 0;
        while i < data.len()
            invariant
                i <= data.len(),
                self@ == old(self)@ + write_bytes_seq(data@.subrange(0, i as int)),
            decreases data.len() - i,
        {
            self.write_byte(data[i]);
            proof {
                let next = data@.subrange(0, i + 1);
                assert(next.drop_last() =~= data@.subrange(0, i as int));
                assert(old(self)@ + write_bytes_seq(data@.subrange(0, i as int)) + write_byte_seq(data[i as int])
                    =~= old(self)@ + write_bytes_seq(next));
            }
            i += 1;
        }
        assert(data@.subrange(0, data.len() as int) =~= data@);
    }

    /// Plans the eight read slots of one byte; their samples are its bits,
    /// least significant first (see `decode_byte`).
    pub fn read_byte(&mut self)
        ensures
            final(self)@ == old(self)@ + read_slots(8),
    {
        let mut i: usize = 0;
        while i < 8
            invariant
                i <= 8,
                self@ == old(self)@ + read_slots(i as nat),
            decreases 8 - i,
        {
            self.read_bit();
            assert(old(self)@ + read_slots(i as nat) + read_slot() =~= old(self)@ + read_slots((i + 1) as nat));
            i += 1;
        }
    }

    /// Plans the read slots of `count` bytes (see `decode_bytes`).
    pub fn read_byte_array(&mut self, count: usize)
        ensures
            final(self)@ == old(self)@ + read_slots(8 * count as nat),
    {
        let mut i: usize = 0;
        assert(old(self)@ + read_slots(0) =~= old(self)@);
        while i < count
            invariant
                i <= count,
                self@ == old(self)@ + read_slots(8 * i as nat),
            decreases count - i,
        {
            self.read_byte();
            proof {
                lemma_read_slots_add(8 * i as nat, 8);
                assert(old(self)@ + read_slots(8 * i as nat) + read_slots(8) =~= old(self)@ + (read_slots(8 * i as nat) + read_slots(8)));
            }
            i += 1;
        }
    }

    /// The actions planned so far, in order.
    pub fn actions(&self) -> (r: &Vec<LineAction>)
        ensures
            r@ == self@,
    {
        &self.actions
    }

    /// Hands out the planned actions and leaves the plan empty.
    pub fn take_actions(&mut self) -> (r: Vec<LineAction>)
        ensures
            r@ == old(self)@,
            final(self)@ == Seq::<LineAction>::empty(),
    {
        let mut r: Vec<LineAction> = Vec::new();
        std::mem::swap(&mut r, &mut self.actions);
        r
    }
}

/// Whether the level sampled during a reset shows a device (see `presence_of`).
pub fn presence_detected(level_high: bool) -> (r: bool)
    ensures
        r == presence_of(level_high),
{
    !level_high
}

/// The byte carried by the eight levels `levels[start..start + 8]` sampled in
/// read slots, least significant bit first; a high level is a 1.
pub fn decode_byte(levels: &[bool], start: usize) -> (r: u8)
    requires
        start + 8 <= levels.len(),
    ensures
        r as nat == value_of_bits(levels@.subrange(start as int, start + 8)),
{
    let mut acc: u8 = 0;
    let mut j: usize = 8;
    while j > 0
        invariant
            j <= 8,
            start + 8 <= levels.len(),
            acc as nat == value_of_bits(levels@.subrange(start + j, start + 8)),
        decreases j,
    {
        j -= 1;
        proof {
            let s = levels@.subrange(start + j, start + 8);
            assert(s.drop_first() =~= levels@.subrange(start + j + 1, start + 8));
            lemma_value_bound(s.drop_first());
            lemma_two_pow_mono((7 - j) as nat, 7);
            assert(two_pow(7) == 128) by {
                reveal_with_fuel(two_pow, 8);
            }
        }
        let bit: u8 = if levels[start + j] { 1 } else { 0 };
        acc = acc * 2 + bit;
    }
    acc
}

/// The `count` bytes carried by levels sampled in read slots from `start`
/// on, eight levels per byte (see `decode_byte`).
pub fn decode_bytes(levels: &[bool], start: usize, count: usize) -> (r: Vec<u8>)
    requires
        start + 8 * count <= levels.len(),
    ensures
        r.len() == count,
        forall|k: int|
            0 <= k < count ==> r[k] as nat == value_of_bits(
                #[trigger] levels@.subrange(start + 8 * k, start + 8 * k + 8),
            ),
{
    let mut r: Vec<u8> = Vec::new();
    let mut k: usize = 0;
    while k < count
        invariant
            start + 8 * count <= levels.len(),
            k <= count,
            r.len() == k,
            forall|m: int|
                0 <= m < k ==> r[m] as nat == value_of_bits(
                    #[trigger] levels@.subrange(start + 8 * m, start + 8 * m + 8),
                ),
        decreases count - k,
    {
        let b = decode_byte(levels, start + 8 * k);
        r.push(b);
        k += 1;
    }
    r
}

} // verus!
