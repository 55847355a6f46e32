//! The DS18B20 command layer: the fixed command sequences of a thermometer
//! that is alone on the bus, and the decoding of its scratchpad.
use vstd::prelude::*;
use crate::one_wire::{
    decode_bytes, lemma_plan_concat, lemma_reset_without_device, lemma_read_slots_samples, lemma_write_bytes_no_samples,
    read_slots, reset_seq, sample_count, value_of_bits, write_byte_seq, write_bytes_seq,
    LineAction, OneWirePin,
};

verus! {

/// Addresses every device on the bus, which here is the one sensor.
pub const SKIP_ROM: u8 = 0xCC;
/// Starts a temperature conversion.
pub const CONVERT_T: u8 = 0x44;
/// Reads the nine scratchpad bytes.
pub const READ_SCRATCHPAD: u8 = 0xBE;
/// Length of the scratchpad.
pub const SCRATCHPAD_LEN: usize = 9;
/// Levels sampled while performing a `read_temperature` plan: the presence
/// sample of the reset, then eight per scratchpad byte.
pub const READING_LEVELS: usize = 73;
/// The raw reading the sensor holds from power-up until its first conversion
/// completes: 0x0550, i.e. 85 degrees.
pub const POWER_ON_RAW: u16 = 0x0550;

/// The plan that starts a conversion: reset, skip ROM, convert.
pub open spec fn convert_seq() -> Seq<LineAction> {
    reset_seq() + write_byte_seq(SKIP_ROM) + write_byte_seq(CONVERT_T)
}

/// The plan that reads the scratchpad: reset, skip ROM, read scratchpad,
/// then the read slots of its nine bytes.
pub open spec fn read_scratchpad_seq() -> Seq<LineAction> {
    reset_seq() + write_bytes_seq(seq![SKIP_ROM, READ_SCRATCHPAD]) + read_slots(8 * 9)
}

/// The 16-bit little-endian value of two bytes.
pub open spec fn le_u16(lo: u8, hi: u8) -> nat {
    lo as nat + 256 * hi as nat
}

/// A temperature as the sensor reports it, in sixteenths of a degree.
/// The sign bits are not interpreted: the value is taken as unsigned, so a
/// reading below zero comes out as a large positive one.
#[derive(Clone, Copy, Debug, PartialEq, Eq, Structural)]
pub struct Temperature {
    pub raw: u16,
}

impl Temperature {
    /// Whether this is the power-on value (85 degrees), which a reading
    /// taken before any conversion completed holds.
    pub fn is_power_on_value(&self) -> (r: bool)
        ensures
            r == (self.raw == POWER_ON_RAW),
    {
        self.raw == POWER_ON_RAW
    }

    /// Whole degrees, rounded down.
    pub fn whole_degrees(&self) -> (r: u16)
        ensures
            r == self.raw / 16,
    {
        self.raw / 16
    }

    /// The fractional part, in sixteenths of a degree.
    pub fn fraction_sixteenths(&self) -> (r: u16)
        ensures
            r == self.raw % 16,
            self.raw == 16 * (self.raw / 16) + r,
    {
        self.raw % 16
    }
}

/// Decodes the temperature from a scratchpad: its first two bytes, little
/// endian, in sixteenths of a degree. The other bytes are not looked at.
pub fn temperature_from_scratchpad(scratchpad: &[u8]) -> (r: Temperature)
    requires
        scratchpad.len() >= 2,
    ensures
        r.raw as nat == le_u16(scratchpad[0], scratchpad[1]),
{
    let lo = scratchpad[0] as u16;
    let hi = scratchpad[1] as u16;
    Temperature { raw: lo + 256 * hi }
}

/// A DS18B20 driver over a bus engine.
pub struct Ds18b20 {
    pin: OneWirePin,
}

impl View for Ds18b20 {
    type V = Seq<LineAction>;

    closed spec fn view(&self) -> Seq<LineAction> {
        self.pin@
    }
}

impl Ds18b20 {
    /// A driver over `pin`, keeping whatever it had planned.
    pub fn new(pin: OneWirePin) -> (r: Ds18b20)
        ensures
            r@ == pin@,
    {
        Ds18b20 { pin }
    }

    /// Plans the start of a temperature conversion. The presence sample of
    /// the reset is not looked at, and the plan does not wait for the
    /// conversion to end: that is up to the caller.
    pub fn measure_temperature(&mut self)
        ensures
            final(self)@ == old(self)@ + convert_seq(),
    {
        self.pin.init();
        self.pin.write_byte(SKIP_ROM);
        self.pin.write_byte(CONVERT_T);
        assert(self@ =~= old(self)@ + convert_seq());
    }

    /// Plans a scratchpad read. Performing the plan yields `READING_LEVELS`
    /// levels, which `decode_reading` turns into a temperature.
    pub fn read_temperature(&mut self)
        ensures
            final(self)@ == old(self)@ + read_scratchpad_seq(),
    {
        let commands: [u8; 2] = [SKIP_ROM, READ_SCRATCHPAD];
        self.pin.init();
        self.pin.write_byte_array(&commands);
        assert(commands@ =~= seq![SKIP_ROM, READ_SCRATCHPAD]);
        self.pin.read_byte_array(SCRATCHPAD_LEN);
        assert(self@ =~= old(self)@ + read_scratchpad_seq());
    }

    /// The actions planned so far, in order.
    pub fn actions(&self) -> (r: &Vec<LineAction>)
        ensures
            r@ == self@,
    {
        self.pin.actions()
    }

    /// Hands out the planned actions and leaves the plan empty.
    pub fn take_actions(&mut self) -> (r: Vec<LineAction>)
        ensures
            r@ == old(self)@,
            final(self)@ == Seq::<LineAction>::empty(),
    {
        self.pin.take_actions()
    }
}

/// The scratchpad carried by the levels sampled while performing a
/// `read_temperature` plan; `None` unless there are exactly
/// `READING_LEVELS` of them.
pub fn scratchpad_from_levels(levels: &[bool]) -> (r: Option<Vec<u8>>)
    ensures
        r is Some <==> levels.len() == READING_LEVELS,
        r matches Some(pad) ==> pad.len() == SCRATCHPAD_LEN && forall|k: int|
            0 <= k < SCRATCHPAD_LEN ==> pad[k] as nat == value_of_bits(
                #[trigger] levels@.subrange(1 + 8 * k, 9 + 8 * k),
            ),
{
    if levels.len() != READING_LEVELS {
        return None;
    }
    let pad = decode_bytes(levels, 1, SCRATCHPAD_LEN);
    assert forall|k: int| 0 <= k < SCRATCHPAD_LEN implies pad[k] as nat == value_of_bits(
        #[trigger] levels@.subrange(1 + 8 * k, 9 + 8 * k),
    ) by {
        assert(levels@.subrange(1 + 8 * k, 1 + 8 * k + 8) == levels@.subrange(1 + 8 * k, 9 + 8 * k));
    }
    Some(pad)
}

/// The temperature carried by the levels sampled while performing a
/// `read_temperature` plan; `None` unless there are exactly
/// `READING_LEVELS` of them. The presence sample is not looked at.
pub fn decode_reading(levels: &[bool]) -> (r: Option<Temperature>)
    ensures
        r is Some <==> levels.len() == READING_LEVELS,
        r matches Some(t) ==> t.raw as nat == value_of_bits(levels@.subrange(1, 9)) + 256
            * value_of_bits(levels@.subrange(9, 17)),
{
    match scratchpad_from_levels(levels) {
        None => None,
        Some(pad) => {
            proof {
                let first: int = 0;
                let second: int = 1;
                assert(pad[first] as nat == value_of_bits(levels@.subrange(1 + 8 * first, 9 + 8 * first)));
                assert(pad[second] as nat == value_of_bits(levels@.subrange(1 + 8 * second, 9 + 8 * second)));
            }
            let t = temperature_from_scratchpad(pad.as_slice());
            Some(t)
        },
    }
}

/// A `read_temperature` plan samples the line exactly `READING_LEVELS`
/// times, and a `measure_temperature` plan once, so performing them back to
/// back with no wait in between yields one level more than the reading.
pub proof fn lemma_plan_levels()
    ensures
        sample_count(read_scratchpad_seq()) == READING_LEVELS,
        sample_count(convert_seq()) == 1,
        sample_count(convert_seq() + read_scratchpad_seq()) == READING_LEVELS + 1,
{
    lemma_reset_without_device();
    lemma_write_bytes_no_samples(seq![SKIP_ROM, READ_SCRATCHPAD]);
    lemma_single_byte(SKIP_ROM);
    lemma_single_byte(CONVERT_T);
    lemma_read_slots_samples(72);
    lemma_plan_concat(reset_seq(), write_bytes_seq(seq![SKIP_ROM, READ_SCRATCHPAD]));
    lemma_plan_concat(reset_seq() + write_bytes_seq(seq![SKIP_ROM, READ_SCRATCHPAD]), read_slots(72));
    lemma_plan_concat(reset_seq(), write_byte_seq(SKIP_ROM));
    lemma_plan_concat(reset_seq() + write_byte_seq(SKIP_ROM), write_byte_seq(CONVERT_T));
    lemma_plan_concat(convert_seq(), read_scratchpad_seq());
}

proof fn lemma_single_byte(b: u8)
    ensures
        sample_count(write_byte_seq(b)) == 0,
{
    let one = seq![b];
    assert(one.drop_last() =~= Seq::<u8>::empty());
    assert(write_bytes_seq(Seq::<u8>::empty()) == Seq::<LineAction>::empty());
    assert(write_bytes_seq(one) =~= write_byte_seq(b));
    lemma_write_bytes_no_samples(one);
}

} // verus!
