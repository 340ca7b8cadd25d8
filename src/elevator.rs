use vstd::prelude::*;

verus! {

/// Input byte: close the door.
pub const CLOSE: u8 = 90; // 'Z'

/// Input byte: go one floor down.
pub const DOWN: u8 = 68; // 'D'

/// Input byte: emergency door opening.
pub const EMERG: u8 = 82; // 'R'

/// Input byte: open the door.
pub const OPEN: u8 = 65; // 'A'

/// Input byte: go one floor up.
pub const UP: u8 = 85; // 'U'

/// The highest floor.
pub const TOP_FLOOR: u8 = 4;

/// The states of an elevator serving floors 0 to 4: before the first
/// opening, or at a floor with the door closed or open.
#[derive(Clone, Copy, Debug, Eq, PartialEq, Structural)]
pub enum States {
    Start,
    Closed0,
    Open0,
    Closed1,
    Open1,
    Closed2,
    Open2,
    Closed3,
    Open3,
    Closed4,
    Open4,
}

impl States {
    /// The floor the elevator is at (the start is at floor 0).
    pub open spec fn floor(self) -> int {
        match self {
            States::Start | States::Closed0 | States::Open0 => 0,
            States::Closed1 | States::Open1 => 1,
            States::Closed2 | States::Open2 => 2,
            States::Closed3 | States::Open3 => 3,
            States::Closed4 | States::Open4 => 4,
        }
    }

    /// Whether the door is open.
    pub open spec fn is_open(self) -> bool {
        match self {
            States::Open0 | States::Open1 | States::Open2 | States::Open3 | States::Open4 => true,
            _ => false,
        }
    }

    /// The state at `floor` (0 to 4) with the door open or closed.
    pub open spec fn at(floor: int, open: bool) -> States {
        if floor <= 0 {
            if open { States::Open0 } else { States::Closed0 }
        } else if floor == 1 {
            if open { States::Open1 } else { States::Closed1 }
        } else if floor == 2 {
            if open { States::Open2 } else { States::Closed2 }
        } else if floor == 3 {
            if open { States::Open3 } else { States::Closed3 }
        } else {
            if open { States::Open4 } else { States::Closed4 }
        }
    }

    /// The state after reading `word`: the door closes only when open,
    /// opens (also in an emergency) only when closed, and the elevator moves
    /// one floor only with the door closed and within floors 0 to 4. The
    /// first opening happens at floor 0 on `OPEN`. Any other input leaves
    /// the state as it is.
    pub open spec fn after(self, word: u8) -> States {
        let closed = self != States::Start && !self.is_open();
        if word == CLOSE && self.is_open() {
            States::at(self.floor(), false)
        } else if word == DOWN && closed && self.floor() > 0 {
            States::at(self.floor() - 1, false)
        } else if word == OPEN && self == States::Start {
            States::Open0
        } else if (word == OPEN || word == EMERG) && closed {
            States::at(self.floor(), true)
        } else if word == UP && closed && self.floor() < TOP_FLOOR {
            States::at(self.floor() + 1, false)
        } else {
            self
        }
    }

    /// Whether this is an end state: the start, or any state with the door open.
    pub fn is_end(&self) -> (r: bool)
        ensures
            r == (*self == States::Start || self.is_open()),
    {
        match *self {
            States::Start | States::Open0 | States::Open1 | States::Open2 | States::Open3
            | States::Open4 => true,
            _ => false,
        }
    }

    /// Reads one input byte.
    pub fn step(self, word: u8) -> (r: States)
        ensures
            r == self.after(word),
    {
        match word {
            CLOSE => match self {
                States::Open0 => States::Closed0,
                States::Open1 => States::Closed1,
                States::Open2 => States::Closed2,
                States::Open3 => States::Closed3,
                States::Open4 => States::Closed4,
                _ => self,
            },
            DOWN => match self {
                States::Closed1 => States::Closed0,
                States::Closed2 => States::Closed1,
                States::Closed3 => States::Closed2,
                States::Closed4 => States::Closed3,
                _ => self,
            },
            OPEN if self == States::Start => States::Open0,
            EMERG | OPEN => match self {
                States::Closed0 => States::Open0,
                States::Closed1 => States::Open1,
                States::Closed2 => States::Open2,
                States::Closed3 => States::Open3,
                States::Closed4 => States::Open4,
                _ => self,
            },
            UP => match self {
                States::Closed0 => States::Closed1,
                States::Closed1 => States::Closed2,
                States::Closed2 => States::Closed3,
                States::Closed3 => States::Closed4,
                _ => self,
            },
            _ => self,
        }
    }
}

} // verus!
