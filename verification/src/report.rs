//! HID boot-keyboard report assembly.
//!
//! A report is one modifier bitmask byte, one reserved byte, and six keycode
//! slots. Modifier keycodes fold into the bitmask; non-modifier keycodes fill
//! the slots in the order they arrive, and any beyond the sixth are dropped,
//! since a boot report cannot express more.

use vstd::prelude::*;

verus! {

/// Number of keycode slots in a boot-keyboard report.
pub const REPORT_SLOTS: usize = 6;

/// First HID usage code of the modifier range (left control).
pub const FIRST_MODIFIER: u8 = 224;

/// Last HID usage code of the modifier range (right GUI).
pub const LAST_MODIFIER: u8 = 231;

/// Whether a keycode is one of the eight modifier usages.
pub open spec fn spec_is_modifier(k: u8) -> bool {
    FIRST_MODIFIER <= k <= LAST_MODIFIER
}

/// The bitmask bit a modifier keycode sets in the report's first byte.
pub open spec fn spec_modifier_bit(k: u8) -> u8 {
    if k == 224 {
        1
    } else if k == 225 {
        2
    } else if k == 226 {
        4
    } else if k == 227 {
        8
    } else if k == 228 {
        16
    } else if k == 229 {
        32
    } else if k == 230 {
        64
    } else if k == 231 {
        128
    } else {
        0
    }
}

/// The non-modifier keycodes of `keys`, in order.
pub open spec fn spec_nonmod(keys: Seq<u8>) -> Seq<u8>
    decreases keys.len(),
{
    if keys.len() == 0 {
        Seq::empty()
    } else {
        let rest = spec_nonmod(keys.drop_last());
        if spec_is_modifier(keys.last()) {
            rest
        } else {
            rest.push(keys.last())
        }
    }
}

/// The bitmask the modifier keycodes of `keys` fold into.
pub open spec fn spec_mods(keys: Seq<u8>) -> u8
    decreases keys.len(),
{
    if keys.len() == 0 {
        0
    } else {
        let rest = spec_mods(keys.drop_last());
        if spec_is_modifier(keys.last()) {
            rest | spec_modifier_bit(keys.last())
        } else {
            rest
        }
    }
}

/// The fixed eight-byte boot-keyboard payload: a modifier bitmask, a
/// reserved byte, and six keycode slots (zero marks an empty slot).
pub struct HidReport {
    pub modifiers: u8,
    pub keycodes: Vec<u8>,
}

impl HidReport {
    /// A report always carries exactly six keycode slots.
    pub open spec fn wf(self) -> bool {
        self.keycodes@.len() == REPORT_SLOTS
    }

    /// The eight bytes sent over the wire: bitmask, reserved zero, slots.
    pub fn bytes(&self) -> (b: Vec<u8>)
        requires
            self.wf(),
        ensures
            b@ == seq![self.modifiers, 0u8] + self.keycodes@,
            b@.len() == 8,
    {
        let mut b: Vec<u8> = Vec::new();
        b.push(self.modifiers);
        b.push(0);
        let mut i: usize = 0;
        while i < self.keycodes.len()
            invariant
                self.wf(),
                i <= self.keycodes@.len(),
                b@ == seq![self.modifiers, 0u8] + self.keycodes@.take(i as int),
            decreases self.keycodes@.len() - i,
        {
            b.push(self.keycodes[i]);
            i = i + 1;
            assert(b@ =~= seq![self.modifiers, 0u8] + self.keycodes@.take(i as int));
        }
        assert(self.keycodes@.take(self.keycodes@.len() as int) =~= self.keycodes@);
        b
    }
}

/// Projects the active keycodes into a boot report: `mods` and every
/// modifier keycode fold into the bitmask; the first six non-modifier
/// keycodes fill the slots in arrival order; the rest are dropped.
pub fn build_report(mods: u8, keys: &Vec<u8>) -> (r: HidReport)
    ensures
        r.wf(),
        r.modifiers == mods | spec_mods(keys@),
        spec_nonmod(keys@).len() <= REPORT_SLOTS ==> r.keycodes@ == spec_nonmod(keys@)
            + Seq::new((REPORT_SLOTS - spec_nonmod(keys@).len()) as nat, |i: int| 0u8),
        spec_nonmod(keys@).len() > REPORT_SLOTS ==> r.keycodes@ == spec_nonmod(keys@).take(
            REPORT_SLOTS as int,
        ),
{
    let mut modifiers: u8 = mods;
    let mut slots: Vec<u8> = Vec::new();
    let mut i: usize = 0;
    proof {
        let m = mods;
        assert(m | 0 == m) by (bit_vector);
        assert(spec_mods(keys@.take(0)) == 0);
    }
    while i < keys.len()
        invariant
            i <= keys@.len(),
            modifiers == mods | spec_mods(keys@.take(i as int)),
            slots@.len() == if spec_nonmod(keys@.take(i as int)).len() <= REPORT_SLOTS {
                spec_nonmod(keys@.take(i as int)).len()
            } else {
                REPORT_SLOTS as nat
            },
            spec_nonmod(keys@.take(i as int)).len() <= REPORT_SLOTS ==> slots@ == spec_nonmod(
                keys@.take(i as int),
            ),
            spec_nonmod(keys@.take(i as int)).len() > REPORT_SLOTS ==> slots@ == spec_nonmod(
                keys@.take(i as int),
            ).take(REPORT_SLOTS as int),
        decreases keys@.len() - i,
    {
        let k = keys[i];
        let ghost pre = keys@.take(i as int);
        let ghost sm = spec_mods(pre);
        let ghost nm = spec_nonmod(pre);
        proof {
            assert(keys@.take(i + 1).drop_last() =~= pre);
            assert(keys@.take(i + 1).last() == k);
        }
        if k >= FIRST_MODIFIER && k <= LAST_MODIFIER {
            let bit: u8 = if k == 224 {
                1
            } else if k == 225 {
                2
            } else if k == 226 {
                4
            } else if k == 227 {
                8
            } else if k == 228 {
                16
            } else if k == 229 {
                32
            } else if k == 230 {
                64
            } else {
                128
            };
            proof {
                assert(bit == spec_modifier_bit(k));
                assert(spec_mods(keys@.take(i + 1)) == sm | bit);
                let b = bit;
                assert((mods | sm) | b == mods | (sm | b)) by (bit_vector);
            }
            modifiers = modifiers | bit;
        } else {
            proof {
                assert(spec_nonmod(keys@.take(i + 1)) == nm.push(k));
            }
            if slots.len() < REPORT_SLOTS {
                slots.push(k);
            } else {
                proof {
                    if nm.len() <= REPORT_SLOTS {
                        assert(nm.push(k).take(REPORT_SLOTS as int) =~= nm);
                    } else {
                        assert(nm.push(k).take(REPORT_SLOTS as int) =~= nm.take(
                            REPORT_SLOTS as int,
                        ));
                    }
                }
            }
        }
        i = i + 1;
    }
    proof {
        assert(keys@.take(keys@.len() as int) =~= keys@);
        if spec_nonmod(keys@).len() <= REPORT_SLOTS {
            assert(slots@ =~= spec_nonmod(keys@) + Seq::new(
                (slots@.len() - spec_nonmod(keys@).len()) as nat,
                |j: int| 0u8,
            ));
        }
    }
    let mut slots_full = slots;
    while slots_full.len() < REPORT_SLOTS
        invariant
            slots_full@.len() <= REPORT_SLOTS,
            spec_nonmod(keys@).len() <= REPORT_SLOTS ==> slots_full@.len() >= spec_nonmod(
                keys@,
            ).len() && slots_full@ == spec_nonmod(keys@) + Seq::new(
                (slots_full@.len() - spec_nonmod(keys@).len()) as nat,
                |j: int| 0u8,
            ),
            spec_nonmod(keys@).len() > REPORT_SLOTS ==> slots_full@ == spec_nonmod(keys@).take(
                REPORT_SLOTS as int,
            ),
        decreases REPORT_SLOTS - slots_full@.len(),
    {
        slots_full.push(0);
        proof {
            if spec_nonmod(keys@).len() <= REPORT_SLOTS {
                assert(slots_full@ =~= spec_nonmod(keys@) + Seq::new(
                    (slots_full@.len() - spec_nonmod(keys@).len()) as nat,
                    |j: int| 0u8,
                ));
            }
        }
    }
    HidReport { modifiers, keycodes: slots_full }
}

} // verus!
