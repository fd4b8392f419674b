//! The rules of the Seeker's Voyage, the little side-scroller: when the boat sails,
//! leaps, is anchored or wrecked, and what is counted. How it moves is left to the
//! painter.

use crate::numbers::{decimal, decimal_text};
use crate::text::{join, push_text};
use vstd::prelude::*;

verus! {

/// The generator that the sea is made with: `1664525 * s + 1013904223`, modulo 2 to
/// the 32nd.
pub struct Lcg {
    pub state: u32,
}

impl Lcg {
    /// A generator with the given seed.
    pub fn new(seed: u32) -> (r: Lcg)
        ensures
            r.state == seed,
    {
        Lcg { state: seed }
    }

    /// The next number.
    pub fn next(&mut self) -> (n: u32)
        ensures
            n == (old(self).state * 1_664_525 + 1_013_904_223) % 0x1_0000_0000,
            final(self).state == n,
    {
        let s: u64 = self.state as u64;
        let n: u64 = (s * 1_664_525 + 1_013_904_223) % 0x1_0000_0000;
        self.state = n as u32;
        self.state
    }
}

/// The card shown while the boat lies still.
pub struct Overlay {
    pub title: String,
    pub subtitle: String,
    pub button: String,
}

/// The card says this.
pub open spec fn reads(o: Overlay, title: Seq<char>, subtitle: Seq<char>, button: Seq<char>) -> bool {
    o.title@ == title && o.subtitle@ == subtitle && o.button@ == button
}

/// The state of a voyage, apart from where everything is.
pub struct Voyage {
    pub rnd: Lcg,
    pub running: bool,
    pub over: bool,
    pub bytes: u32,
    pub jumping: bool,
    pub reached_min: bool,
    pub speed_drop: bool,
    pub best: u32,
    pub overlay: Overlay,
}

/// What a press on the boat comes to: nothing, a start from the shore, sailing on, or
/// a leap.
#[derive(Clone, Copy, PartialEq, Eq, Structural)]
pub enum Pressed {
    Nothing,
    SetSail,
    SailOn,
    Leap,
}

/// Where the boat is in a leap.
pub open spec fn same_leap(a: Voyage, b: Voyage) -> bool {
    a.jumping == b.jumping && a.reached_min == b.reached_min && a.speed_drop == b.speed_drop
}

/// What a wreck is told with.
pub open spec fn wreck_note(bytes: nat) -> Seq<char> {
    if bytes > 0 {
        "With "@ + decimal(bytes) + " amber bytes aboard. The sea keeps honest ledgers."@
    } else {
        "The sea keeps honest ledgers."@
    }
}

impl Voyage {
    /// A voyage before it starts, with the best one so far.
    pub fn new(best: u32) -> (v: Voyage)
        ensures
            v.rnd.state == 108,
            !v.running,
            !v.over,
            v.bytes == 0,
            !v.jumping,
            !v.reached_min,
            !v.speed_drop,
            v.best == best,
            reads(
                v.overlay,
                "The Seeker's Voyage"@,
                "Sail east under the pasha moon. Leap the corrupt reefs, gather amber bytes."@,
                "Set sail"@,
            ),
    {
        Voyage {
            rnd: Lcg::new(108),
            running: false,
            over: false,
            bytes: 0,
            jumping: false,
            reached_min: false,
            speed_drop: false,
            best,
            overlay: Overlay {
                title: "The Seeker's Voyage".to_owned(),
                subtitle:
                    "Sail east under the pasha moon. Leap the corrupt reefs, gather amber bytes.".to_owned(),
                button: "Set sail".to_owned(),
            },
        }
    }

    /// Sets sail, unless the boat is sailing already: from the shore after a wreck or
    /// where it has not moved yet, and from where it lies otherwise.
    pub fn start(&mut self, ashore: bool) -> (p: Pressed)
        ensures
            p == if old(self).running && !old(self).over {
                Pressed::Nothing
            } else if old(self).over || ashore {
                Pressed::SetSail
            } else {
                Pressed::SailOn
            },
            p is Nothing ==> *final(self) == *old(self),
            !(p is Nothing) ==> final(self).running && !final(self).over,
            p is SetSail ==> final(self).bytes == 0 && !final(self).jumping && !final(self).reached_min && !final(self).speed_drop,
            p is SailOn ==> final(self).bytes == old(self).bytes && same_leap(
                *old(self),
                *final(self),
            ),
            final(self).best == old(self).best,
            final(self).overlay == old(self).overlay,
            final(self).rnd == old(self).rnd,
    {
        if self.running && !self.over {
            return Pressed::Nothing;
        }
        let afresh = self.over || ashore;
        if afresh {
            self.over = false;
            self.bytes = 0;
            self.jumping = false;
            self.reached_min = false;
            self.speed_drop = false;
        }
        self.running = true;
        if afresh {
            Pressed::SetSail
        } else {
            Pressed::SailOn
        }
    }

    /// Leaps, where the boat sails and is not in the air already. Says whether it did.
    pub fn jump(&mut self) -> (leap: bool)
        ensures
            leap == (old(self).running && !old(self).over && !old(self).jumping),
            !leap ==> *final(self) == *old(self),
            leap ==> final(self).jumping && !final(self).reached_min && !final(self).speed_drop,
            final(self).running == old(self).running,
            final(self).over == old(self).over,
            final(self).bytes == old(self).bytes,
            final(self).best == old(self).best,
            final(self).overlay == old(self).overlay,
            final(self).rnd == old(self).rnd,
    {
        if !self.running || self.over || self.jumping {
            return false;
        }
        self.jumping = true;
        self.reached_min = false;
        self.speed_drop = false;
        true
    }

    /// What a press comes to: a start where the boat lies still, a leap where it sails.
    pub fn press(&mut self, ashore: bool) -> (p: Pressed)
        ensures
            p == if old(self).running {
                if !old(self).over && !old(self).jumping {
                    Pressed::Leap
                } else {
                    Pressed::Nothing
                }
            } else if old(self).over || ashore {
                Pressed::SetSail
            } else {
                Pressed::SailOn
            },
            p is Nothing ==> *final(self) == *old(self),
            p is Leap ==> final(self).jumping && !final(self).reached_min && !final(self).speed_drop && final(self).bytes == old(self).bytes && final(self).running
                && !final(self).over,
            p is SetSail ==> final(self).running && !final(self).over && final(self).bytes == 0
                && !final(self).jumping && !final(self).reached_min && !final(self).speed_drop,
            p is SailOn ==> final(self).running && !final(self).over && final(self).bytes == old(self).bytes && same_leap(*old(self), *final(self)),
            final(self).best == old(self).best,
            final(self).overlay == old(self).overlay,
            final(self).rnd == old(self).rnd,
    {
        if !self.running {
            return self.start(ashore);
        }
        if self.jump() {
            Pressed::Leap
        } else {
            Pressed::Nothing
        }
    }

    /// Whether letting go early cuts the leap short: high enough in the air, and still
    /// rising fast.
    pub fn end_jump(&self, rising_fast: bool) -> (cut: bool)
        ensures
            cut == (self.jumping && self.reached_min && rising_fast),
    {
        self.jumping && self.reached_min && rising_fast
    }

    /// Dives, where the boat is in the air. Says whether it did.
    pub fn set_speed_drop(&mut self) -> (dive: bool)
        ensures
            dive == old(self).jumping,
            final(self).speed_drop == (dive || old(self).speed_drop),
            final(self).jumping == old(self).jumping,
            final(self).reached_min == old(self).reached_min,
            final(self).running == old(self).running,
            final(self).over == old(self).over,
            final(self).bytes == old(self).bytes,
            final(self).best == old(self).best,
            final(self).overlay == old(self).overlay,
            final(self).rnd == old(self).rnd,
    {
        if self.jumping {
            self.speed_drop = true;
        }
        self.jumping
    }

    /// Stops diving.
    pub fn release_drop(&mut self)
        ensures
            *final(self) == (Voyage { speed_drop: false, ..*old(self) }),
    {
        self.speed_drop = false;
    }

    /// One moment in the air: high enough to be cut short from now on, or back on the
    /// water.
    pub fn fly(&mut self, high_enough: bool, landed: bool)
        requires
            old(self).jumping,
        ensures
            final(self).reached_min == (old(self).reached_min || high_enough),
            final(self).jumping == !landed,
            final(self).speed_drop == (old(self).speed_drop && !landed),
            final(self).running == old(self).running,
            final(self).over == old(self).over,
            final(self).bytes == old(self).bytes,
            final(self).best == old(self).best,
            final(self).overlay == old(self).overlay,
            final(self).rnd == old(self).rnd,
    {
        if high_enough {
            self.reached_min = true;
        }
        if landed {
            self.jumping = false;
            self.speed_drop = false;
        }
    }

    /// Takes an orb aboard.
    pub fn collect(&mut self)
        requires
            old(self).bytes <= u32::MAX - 8,
        ensures
            *final(self) == (Voyage { bytes: (old(self).bytes + 8) as u32, ..*old(self) }),
    {
        self.bytes = self.bytes + 8;
    }

    /// Lies at anchor, where the boat sails.
    pub fn anchor(&mut self)
        ensures
            old(self).running && !old(self).over ==> !final(self).running && reads(
                final(self).overlay,
                "At anchor"@,
                "The watch paused while you were away."@,
                "Resume \u{2014} sail on"@,
            ),
            !(old(self).running && !old(self).over) ==> final(self).running == old(self).running
                && final(self).overlay == old(self).overlay,
            final(self).over == old(self).over,
            final(self).bytes == old(self).bytes,
            final(self).best == old(self).best,
            final(self).rnd == old(self).rnd,
            same_leap(*old(self), *final(self)),
    {
        if self.running && !self.over {
            self.running = false;
            self.overlay = Overlay {
                title: "At anchor".to_owned(),
                subtitle: "The watch paused while you were away.".to_owned(),
                button: "Resume \u{2014} sail on".to_owned(),
            };
        }
    }

    /// Runs aground after so many fathoms. Says whether that is the best voyage yet.
    pub fn wreck(&mut self, fathoms: u32) -> (best_changed: bool)
        ensures
            final(self).over,
            !final(self).running,
            best_changed == (fathoms > old(self).best),
            final(self).best == if fathoms > old(self).best {
                fathoms
            } else {
                old(self).best
            },
            reads(
                final(self).overlay,
                "Wrecked at "@ + decimal(fathoms as nat) + " fathoms"@,
                wreck_note(old(self).bytes as nat),
                "Sail again"@,
            ),
            final(self).bytes == old(self).bytes,
            final(self).rnd == old(self).rnd,
            same_leap(*old(self), *final(self)),
    {
        self.over = true;
        self.running = false;
        let mut best_changed = false;
        if fathoms > self.best {
            self.best = fathoms;
            best_changed = true;
        }
        let subtitle = if self.bytes > 0 {
            let mut s = join("With ", decimal_text(self.bytes as u64).as_str());
            push_text(&mut s, " amber bytes aboard. The sea keeps honest ledgers.");
            s
        } else {
            "The sea keeps honest ledgers.".to_owned()
        };
        let mut title = join("Wrecked at ", decimal_text(fathoms as u64).as_str());
        push_text(&mut title, " fathoms");
        self.overlay = Overlay { title, subtitle, button: "Sail again".to_owned() };
        best_changed
    }
}

/// A wreck is told with what was aboard, where anything was.
pub proof fn wreck_tells_what_was_aboard(bytes: nat)
    ensures
        bytes == 0 ==> wreck_note(bytes) == "The sea keeps honest ledgers."@,
        bytes > 0 ==> wreck_note(bytes) == "With "@ + decimal(bytes)
            + " amber bytes aboard. The sea keeps honest ledgers."@,
{
}

/// What a card reads is its title, its subtitle and its button, and being in the same leap
/// is to agree on the three marks of one.
pub proof fn cards_are_read_in_full(
    o: Overlay,
    title: Seq<char>,
    subtitle: Seq<char>,
    button: Seq<char>,
    a: Voyage,
    b: Voyage,
)
    ensures
        reads(o, title, subtitle, button) <==> o.title@ == title && o.subtitle@ == subtitle
            && o.button@ == button,
        same_leap(a, b) <==> a.jumping == b.jumping && a.reached_min == b.reached_min
            && a.speed_drop == b.speed_drop,
{
}

/// The sea is made by one generator, whose numbers follow from the seed alone: each is
/// 1664525 times the one before and 1013904223, modulo 2 to the 32nd.
pub proof fn sea_follows_from_the_seed(seed: u32, r: Lcg, g: &mut Lcg, n: u32)
    requires
        call_ensures(Lcg::new, (seed,), r),
        call_ensures(Lcg::next, (g,), n),
    ensures
        r.state == seed,
        final(g).state == n,
        n == (old(g).state * 1664525 + 1013904223) % 0x1_0000_0000,
{
}

/// A voyage begins on the shore: nothing moves, nothing is aboard, and the best one so far
/// is remembered.
pub proof fn voyage_begins_on_the_shore(best: u32, v: Voyage)
    requires
        call_ensures(Voyage::new, (best,), v),
    ensures
        !v.running && !v.over && !v.jumping && !v.reached_min && !v.speed_drop,
        v.bytes == 0,
        v.best == best,
        v.rnd.state == 108,
        v.overlay.title@ == "The Seeker's Voyage"@,
        v.overlay.subtitle@
            == "Sail east under the pasha moon. Leap the corrupt reefs, gather amber bytes."@,
        v.overlay.button@ == "Set sail"@,
{
}

/// A boat that lies still sets sail when it is asked to: afresh, with nothing aboard, after
/// a wreck or from the shore, and otherwise with what it has. One that sails already takes
/// no notice.
pub proof fn still_boat_sets_sail(v: &mut Voyage, ashore: bool, p: Pressed)
    requires
        call_ensures(Voyage::start, (v, ashore), p),
    ensures
        old(v).running && !old(v).over ==> p is Nothing && *final(v) == *old(v),
        !(old(v).running && !old(v).over) ==> final(v).running && !final(v).over,
        old(v).over || (!old(v).running && ashore) ==> p is SetSail && final(v).bytes == 0
            && !final(v).jumping && !final(v).reached_min && !final(v).speed_drop,
        !old(v).running && !old(v).over && !ashore ==> p is SailOn && final(v).bytes == old(v).bytes
            && final(v).jumping == old(v).jumping && final(v).reached_min == old(v).reached_min
            && final(v).speed_drop == old(v).speed_drop,
        final(v).best == old(v).best,
        final(v).overlay == old(v).overlay,
        final(v).rnd == old(v).rnd,
{
}

/// A boat leaps where it sails and is on the water, and nowhere else; a leap begins low and
/// without a dive, and takes nothing off the boat.
pub proof fn boat_leaps_from_the_water(v: &mut Voyage, leap: bool)
    requires
        call_ensures(Voyage::jump, (v,), leap),
    ensures
        leap <==> old(v).running && !old(v).over && !old(v).jumping,
        leap ==> final(v).jumping && !final(v).reached_min && !final(v).speed_drop,
        !leap ==> *final(v) == *old(v),
        final(v).running == old(v).running && final(v).over == old(v).over,
        final(v).bytes == old(v).bytes && final(v).best == old(v).best,
        final(v).overlay == old(v).overlay && final(v).rnd == old(v).rnd,
{
}

/// One press does one thing: a boat that lies still sets sail, one that sails leaps, and in
/// the air nothing happens.
pub proof fn one_press_does_one_thing(v: &mut Voyage, ashore: bool, p: Pressed)
    requires
        call_ensures(Voyage::press, (v, ashore), p),
    ensures
        !old(v).running && (old(v).over || ashore) ==> p is SetSail && final(v).running
            && !final(v).over && final(v).bytes == 0 && !final(v).jumping,
        !old(v).running && !old(v).over && !ashore ==> p is SailOn && final(v).running
            && !final(v).over && final(v).bytes == old(v).bytes && final(v).jumping
            == old(v).jumping,
        old(v).running && !old(v).over && !old(v).jumping ==> p is Leap && final(v).jumping
            && final(v).running && !final(v).over && final(v).bytes == old(v).bytes,
        old(v).running && (old(v).over || old(v).jumping) ==> p is Nothing && *final(v) == *old(v),
        final(v).best == old(v).best,
        final(v).overlay == old(v).overlay,
        final(v).rnd == old(v).rnd,
{
}

/// A leap is cut short only in the air, once it is high enough and still rises fast.
pub proof fn leap_is_cut_short_on_the_rise(v: Voyage, rising_fast: bool, cut: bool)
    requires
        call_ensures(Voyage::end_jump, (&v, rising_fast), cut),
    ensures
        cut <==> v.jumping && v.reached_min && rising_fast,
{
}

/// Diving is for the air alone, and letting go ends it; neither changes anything else.
pub proof fn boat_dives_in_the_air(v: &mut Voyage, dive: bool, w: &mut Voyage)
    requires
        call_ensures(Voyage::set_speed_drop, (v,), dive),
        call_ensures(Voyage::release_drop, (w,), ()),
    ensures
        dive <==> old(v).jumping,
        dive ==> final(v).speed_drop,
        !dive ==> final(v).speed_drop == old(v).speed_drop,
        final(v).jumping == old(v).jumping && final(v).reached_min == old(v).reached_min,
        final(v).running == old(v).running && final(v).over == old(v).over,
        final(v).bytes == old(v).bytes && final(v).best == old(v).best,
        final(v).overlay == old(v).overlay && final(v).rnd == old(v).rnd,
        !final(w).speed_drop,
        final(w).jumping == old(w).jumping && final(w).reached_min == old(w).reached_min,
        final(w).running == old(w).running && final(w).over == old(w).over,
        final(w).bytes == old(w).bytes && final(w).best == old(w).best,
        final(w).overlay == old(w).overlay && final(w).rnd == old(w).rnd,
{
}

/// In the air a boat is high enough from the moment it is, and landing ends the leap and
/// the dive.
pub proof fn landing_ends_the_leap(v: &mut Voyage, high_enough: bool, landed: bool)
    requires
        old(v).jumping,
        call_ensures(Voyage::fly, (v, high_enough, landed), ()),
    ensures
        landed ==> !final(v).jumping && !final(v).speed_drop,
        !landed ==> final(v).jumping && final(v).speed_drop == old(v).speed_drop,
        high_enough || old(v).reached_min ==> final(v).reached_min,
        !high_enough && !old(v).reached_min ==> !final(v).reached_min,
        final(v).running == old(v).running && final(v).over == old(v).over,
        final(v).bytes == old(v).bytes && final(v).best == old(v).best,
        final(v).overlay == old(v).overlay && final(v).rnd == old(v).rnd,
{
}

/// An orb is eight bytes more aboard and changes nothing else.
pub proof fn orb_is_eight_bytes(v: &mut Voyage)
    requires
        old(v).bytes <= u32::MAX - 8,
        call_ensures(Voyage::collect, (v,), ()),
    ensures
        final(v).bytes == old(v).bytes + 8,
        *final(v) == (Voyage { bytes: final(v).bytes, ..*old(v) }),
{
}

/// A boat that sails can be anchored; it lies still then, with all it has, until it sails
/// on. Anchoring any other boat does nothing.
pub proof fn boat_lies_at_anchor(v: &mut Voyage)
    requires
        call_ensures(Voyage::anchor, (v,), ()),
    ensures
        old(v).running && !old(v).over ==> !final(v).running && final(v).overlay.title@
            == "At anchor"@ && final(v).overlay.subtitle@ == "The watch paused while you were away."@
            && final(v).overlay.button@ == "Resume \u{2014} sail on"@,
        !(old(v).running && !old(v).over) ==> final(v).running == old(v).running
            && final(v).overlay == old(v).overlay,
        final(v).over == old(v).over && final(v).bytes == old(v).bytes,
        final(v).best == old(v).best && final(v).rnd == old(v).rnd,
        final(v).jumping == old(v).jumping && final(v).reached_min == old(v).reached_min
            && final(v).speed_drop == old(v).speed_drop,
{
}

/// A wreck ends the voyage and tells how far it came. It is the best one just where it came
/// further than any before.
pub proof fn furthest_wreck_is_the_best(v: &mut Voyage, fathoms: u32, best: bool)
    requires
        call_ensures(Voyage::wreck, (v, fathoms), best),
    ensures
        final(v).over && !final(v).running,
        best <==> fathoms > old(v).best,
        best ==> final(v).best == fathoms,
        !best ==> final(v).best == old(v).best,
        final(v).overlay.title@ == "Wrecked at "@ + decimal(fathoms as nat) + " fathoms"@,
        final(v).overlay.subtitle@ == wreck_note(old(v).bytes as nat),
        final(v).overlay.button@ == "Sail again"@,
        final(v).bytes == old(v).bytes && final(v).rnd == old(v).rnd,
        final(v).jumping == old(v).jumping && final(v).reached_min == old(v).reached_min
            && final(v).speed_drop == old(v).speed_drop,
{
}

} // verus!
