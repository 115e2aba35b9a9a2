//! Serial numbers, which tell the uploads of a process apart.

use vstd::prelude::*;

verus! {

/// A serial number: a process, and a number that is handed out once in it. It cannot be
/// copied, nor made but by `Serials::take`.
#[derive(Debug)]
pub struct Serial {
    pid: u32,
    number: u64,
}

/// A serial number.
pub struct SerialView {
    pub pid: u32,
    pub number: u64,
}

impl View for Serial {
    type V = SerialView;

    closed spec fn view(&self) -> SerialView {
        SerialView { pid: self.pid, number: self.number }
    }
}

impl Serial {
    /// The process that the number belongs to.
    pub fn pid(&self) -> (r: u32)
        ensures
            r == self@.pid,
    {
        self.pid
    }

    /// The number in that process.
    pub fn number(&self) -> (r: u64)
        ensures
            r == self@.number,
    {
        self.number
    }
}

/// The serial numbers of a process, of which each is handed out once. A process has one of
/// these.
#[derive(Debug)]
pub struct Serials {
    pid: u32,
    taken: u64,
}

/// The serial numbers of a process, of which `taken` were handed out.
pub struct SerialsView {
    pub pid: u32,
    pub taken: u64,
}

impl View for Serials {
    type V = SerialsView;

    closed spec fn view(&self) -> SerialsView {
        SerialsView { pid: self.pid, taken: self.taken }
    }
}

/// The next serial number, unless all were handed out.
pub open spec fn next_serial(serials: SerialsView) -> Option<SerialView> {
    if serials.taken < u64::MAX {
        Some(SerialView { pid: serials.pid, number: serials.taken })
    } else {
        None
    }
}

/// The serial numbers that are left once the next one is handed out.
pub open spec fn without_next(serials: SerialsView) -> SerialsView {
    if serials.taken < u64::MAX {
        SerialsView { taken: (serials.taken + 1) as u64, ..serials }
    } else {
        serials
    }
}

impl Serials {
    /// The serial numbers of the process `pid`.
    pub fn new(pid: u32) -> (r: Serials)
        ensures
            r@ == (SerialsView { pid, taken: 0 }),
    {
        Serials { pid, taken: 0 }
    }

    /// Hands out the next serial number.
    pub fn take(&mut self) -> (r: Option<Serial>)
        ensures
            match r {
                Some(serial) => next_serial(old(self)@) == Some(serial@),
                None => next_serial(old(self)@) is None,
            },
            final(self)@ == without_next(old(self)@),
    {
        if self.taken == u64::MAX {
            return None;
        }
        let serial = Serial { pid: self.pid, number: self.taken };
        self.taken = self.taken + 1;
        Some(serial)
    }
}

/// The serial numbers that the next `count` calls hand out, in order.
pub open spec fn handed_out(serials: SerialsView, count: nat) -> Seq<SerialView>
    decreases count,
{
    match next_serial(serials) {
        Some(serial) if count > 0 => seq![serial] + handed_out(
            without_next(serials),
            (count - 1) as nat,
        ),
        _ => Seq::empty(),
    }
}

proof fn lemma_handed_out(serials: SerialsView, count: nat, i: int)
    requires
        0 <= i < handed_out(serials, count).len(),
    ensures
        handed_out(serials, count)[i].pid == serials.pid,
        handed_out(serials, count)[i].number == serials.taken + i,
    decreases count,
{
    if i > 0 {
        lemma_handed_out(without_next(serials), (count - 1) as nat, i - 1);
    }
}

/// No serial number is handed out twice.
pub proof fn law_serials_differ(serials: SerialsView, count: nat, i: int, j: int)
    requires
        0 <= i < handed_out(serials, count).len(),
        0 <= j < handed_out(serials, count).len(),
        i != j,
    ensures
        handed_out(serials, count)[i] != handed_out(serials, count)[j],
{
    lemma_handed_out(serials, count, i);
    lemma_handed_out(serials, count, j);
}

} // verus!
