use vstd::prelude::*;
use vstd::string::*;

verus! {

/// Steering of one Dubins segment.
#[derive(Debug, Clone, Copy, PartialEq, Eq, Structural)]
pub enum DubinsSegmentType {
    Left,
    Straight,
    Right,
}

/// Letter of a steering in a path name.
pub open spec fn dubins_letter(t: DubinsSegmentType) -> char {
    match t {
        DubinsSegmentType::Left => 'L',
        DubinsSegmentType::Straight => 'S',
        DubinsSegmentType::Right => 'R',
    }
}

/// The six Dubins path words, in the order the planner tries them.
#[derive(Debug, Clone, Copy, PartialEq, Eq, Structural)]
pub enum DubinsWord {
    Lsl,
    Rsr,
    Rsl,
    Lsr,
    Rlr,
    Lrl,
}

/// Segment steerings of a word.
pub open spec fn word_types(w: DubinsWord) -> Seq<DubinsSegmentType> {
    match w {
        DubinsWord::Lsl => seq![DubinsSegmentType::Left, DubinsSegmentType::Straight, DubinsSegmentType::Left],
        DubinsWord::Rsr => seq![DubinsSegmentType::Right, DubinsSegmentType::Straight, DubinsSegmentType::Right],
        DubinsWord::Rsl => seq![DubinsSegmentType::Right, DubinsSegmentType::Straight, DubinsSegmentType::Left],
        DubinsWord::Lsr => seq![DubinsSegmentType::Left, DubinsSegmentType::Straight, DubinsSegmentType::Right],
        DubinsWord::Rlr => seq![DubinsSegmentType::Right, DubinsSegmentType::Left, DubinsSegmentType::Right],
        DubinsWord::Lrl => seq![DubinsSegmentType::Left, DubinsSegmentType::Right, DubinsSegmentType::Left],
    }
}

/// Name of a word, as reported on a planned path.
pub open spec fn word_name(w: DubinsWord) -> Seq<char> {
    match w {
        DubinsWord::Lsl => seq!['L', 'S', 'L'],
        DubinsWord::Rsr => seq!['R', 'S', 'R'],
        DubinsWord::Rsl => seq!['R', 'S', 'L'],
        DubinsWord::Lsr => seq!['L', 'S', 'R'],
        DubinsWord::Rlr => seq!['R', 'L', 'R'],
        DubinsWord::Lrl => seq!['L', 'R', 'L'],
    }
}

impl DubinsWord {
    /// Every word, in the order the planner tries them.
    pub fn all() -> (out: Vec<DubinsWord>)
        ensures
            out@ == seq![
                DubinsWord::Lsl,
                DubinsWord::Rsr,
                DubinsWord::Rsl,
                DubinsWord::Lsr,
                DubinsWord::Rlr,
                DubinsWord::Lrl,
            ],
    {
        let out = vec![
            DubinsWord::Lsl,
            DubinsWord::Rsr,
            DubinsWord::Rsl,
            DubinsWord::Lsr,
            DubinsWord::Rlr,
            DubinsWord::Lrl,
        ];
        assert(out@ =~= seq![
            DubinsWord::Lsl,
            DubinsWord::Rsr,
            DubinsWord::Rsl,
            DubinsWord::Lsr,
            DubinsWord::Rlr,
            DubinsWord::Lrl,
        ]);
        out
    }

    /// Steerings of the word's three segments.
    pub fn segment_types(&self) -> (out: Vec<DubinsSegmentType>)
        ensures
            out@ == word_types(*self),
    {
        let (a, b, c) = match self {
            DubinsWord::Lsl => (DubinsSegmentType::Left, DubinsSegmentType::Straight, DubinsSegmentType::Left),
            DubinsWord::Rsr => (DubinsSegmentType::Right, DubinsSegmentType::Straight, DubinsSegmentType::Right),
            DubinsWord::Rsl => (DubinsSegmentType::Right, DubinsSegmentType::Straight, DubinsSegmentType::Left),
            DubinsWord::Lsr => (DubinsSegmentType::Left, DubinsSegmentType::Straight, DubinsSegmentType::Right),
            DubinsWord::Rlr => (DubinsSegmentType::Right, DubinsSegmentType::Left, DubinsSegmentType::Right),
            DubinsWord::Lrl => (DubinsSegmentType::Left, DubinsSegmentType::Right, DubinsSegmentType::Left),
        };
        let out = vec![a, b, c];
        assert(out@ =~= word_types(*self));
        out
    }

    /// The word's name.
    pub fn name(&self) -> (r: &'static str)
        ensures
            r@ == word_name(*self),
    {
        match self {
            DubinsWord::Lsl => {
                proof {
                    reveal_strlit("LSL");
                }
                "LSL"
            },
            DubinsWord::Rsr => {
                proof {
                    reveal_strlit("RSR");
                }
                "RSR"
            },
            DubinsWord::Rsl => {
                proof {
                    reveal_strlit("RSL");
                }
                "RSL"
            },
            DubinsWord::Lsr => {
                proof {
                    reveal_strlit("LSR");
                }
                "LSR"
            },
            DubinsWord::Rlr => {
                proof {
                    reveal_strlit("RLR");
                }
                "RLR"
            },
            DubinsWord::Lrl => {
                proof {
                    reveal_strlit("LRL");
                }
                "LRL"
            },
        }
    }
}

/// A word's name spells the steering of its segments.
pub proof fn lemma_word_name_spells_types(w: DubinsWord)
    ensures
        word_name(w) == word_types(w).map_values(|t: DubinsSegmentType| dubins_letter(t)),
{
    assert(word_name(w) =~= word_types(w).map_values(|t: DubinsSegmentType| dubins_letter(t)));
}

/// Steering of a Reeds-Shepp segment together with its direction of travel.
#[derive(Debug, Clone, Copy, PartialEq, Eq, Structural)]
pub enum ReedsSheppSegmentType {
    LeftForward,
    StraightForward,
    RightForward,
    LeftBackward,
    StraightBackward,
    RightBackward,
}

/// One entry of a Reeds-Shepp path word: a steering, or the end of the word.
#[derive(Debug, Clone, Copy, PartialEq, Eq, Structural)]
pub enum Steer {
    Nop,
    Left,
    Straight,
    Right,
}

/// Segment type of a steering driven forward or backward; none for `Nop`.
pub open spec fn rs_segment(steer: Steer, forward: bool) -> Option<ReedsSheppSegmentType> {
    match steer {
        Steer::Nop => None,
        Steer::Left => Some(if forward { ReedsSheppSegmentType::LeftForward } else { ReedsSheppSegmentType::LeftBackward }),
        Steer::Straight => Some(
            if forward { ReedsSheppSegmentType::StraightForward } else { ReedsSheppSegmentType::StraightBackward },
        ),
        Steer::Right => Some(if forward { ReedsSheppSegmentType::RightForward } else { ReedsSheppSegmentType::RightBackward }),
    }
}

/// Letter of a segment in a path name: upper case forward, lower case backward.
pub open spec fn rs_letter(t: ReedsSheppSegmentType) -> char {
    match t {
        ReedsSheppSegmentType::LeftForward => 'L',
        ReedsSheppSegmentType::StraightForward => 'S',
        ReedsSheppSegmentType::RightForward => 'R',
        ReedsSheppSegmentType::LeftBackward => 'l',
        ReedsSheppSegmentType::StraightBackward => 's',
        ReedsSheppSegmentType::RightBackward => 'r',
    }
}

/// Length of the word before its first `Nop` (all of it without one).
pub open spec fn word_len(steers: Seq<Steer>, k: int) -> int
    decreases k,
{
    if k <= 0 {
        0
    } else if word_len(steers, k - 1) == k - 1 && steers[k - 1] != Steer::Nop {
        k
    } else {
        word_len(steers, k - 1)
    }
}

/// Segment `i` of a word: the steering at `i` in the direction at `i`.
pub open spec fn rs_segment_at(steers: Seq<Steer>, forward: Seq<bool>, i: int) -> ReedsSheppSegmentType {
    rs_segment(steers[i], forward[i]).unwrap()
}

proof fn lemma_word_len_facts(steers: Seq<Steer>, k: int)
    requires
        0 <= k <= steers.len(),
    ensures
        0 <= word_len(steers, k) <= k,
        forall|i: int| 0 <= i < word_len(steers, k) ==> #[trigger] steers[i] != Steer::Nop,
        word_len(steers, k) < k ==> steers[word_len(steers, k)] == Steer::Nop,
    decreases k,
{
    if k > 0 {
        lemma_word_len_facts(steers, k - 1);
    }
}

impl ReedsSheppSegmentType {
    /// Segment type for a steering and a direction; `None` for `Nop`.
    pub fn from_steer(steer: Steer, forward: bool) -> (r: Option<ReedsSheppSegmentType>)
        ensures
            r == rs_segment(steer, forward),
    {
        match steer {
            Steer::Nop => None,
            Steer::Left => Some(if forward { ReedsSheppSegmentType::LeftForward } else { ReedsSheppSegmentType::LeftBackward }),
            Steer::Straight => Some(
                if forward { ReedsSheppSegmentType::StraightForward } else { ReedsSheppSegmentType::StraightBackward },
            ),
            Steer::Right => Some(if forward { ReedsSheppSegmentType::RightForward } else { ReedsSheppSegmentType::RightBackward }),
        }
    }

    /// Whether the segment is driven forward.
    pub fn is_forward(&self) -> (r: bool)
        ensures
            r == (*self is LeftForward || *self is StraightForward || *self is RightForward),
    {
        match self {
            ReedsSheppSegmentType::LeftForward | ReedsSheppSegmentType::StraightForward | ReedsSheppSegmentType::RightForward => true,
            _ => false,
        }
    }

    /// The segment's letter in a path name.
    pub fn letter(&self) -> (r: &'static str)
        ensures
            r@ == seq![rs_letter(*self)],
    {
        match self {
            ReedsSheppSegmentType::LeftForward => {
                proof {
                    reveal_strlit("L");
                }
                "L"
            },
            ReedsSheppSegmentType::StraightForward => {
                proof {
                    reveal_strlit("S");
                }
                "S"
            },
            ReedsSheppSegmentType::RightForward => {
                proof {
                    reveal_strlit("R");
                }
                "R"
            },
            ReedsSheppSegmentType::LeftBackward => {
                proof {
                    reveal_strlit("l");
                }
                "l"
            },
            ReedsSheppSegmentType::StraightBackward => {
                proof {
                    reveal_strlit("s");
                }
                "s"
            },
            ReedsSheppSegmentType::RightBackward => {
                proof {
                    reveal_strlit("r");
                }
                "r"
            },
        }
    }
}

/// Segments of a Reeds-Shepp word: its entries up to the first `Nop`, each
/// in the direction given by `forward` (the sign of its length).
pub fn rs_segments(steers: &Vec<Steer>, forward: &Vec<bool>) -> (out: Vec<ReedsSheppSegmentType>)
    requires
        forward.len() == steers.len(),
    ensures
        out.len() == word_len(steers@, steers.len() as int),
        forall|i: int| 0 <= i < out.len() ==> #[trigger] out@[i] == rs_segment_at(steers@, forward@, i),
{
    proof {
        lemma_word_len_facts(steers@, steers.len() as int);
    }
    let ghost len = word_len(steers@, steers.len() as int);
    let mut out: Vec<ReedsSheppSegmentType> = Vec::new();
    let mut i: usize = 0;
    while i < steers.len()
        invariant_except_break
            forward.len() == steers.len(),
            len == word_len(steers@, steers.len() as int),
            0 <= len <= steers.len(),
            forall|k: int| 0 <= k < len ==> #[trigger] steers@[k] != Steer::Nop,
            len < steers.len() ==> steers@[len] == Steer::Nop,
            i <= len,
            out.len() == i,
            forall|k: int| 0 <= k < i ==> #[trigger] out@[k] == rs_segment_at(steers@, forward@, k),
        ensures
            out.len() == len,
            forall|k: int| 0 <= k < out.len() ==> #[trigger] out@[k] == rs_segment_at(steers@, forward@, k),
        decreases steers.len() - i,
    {
        match ReedsSheppSegmentType::from_steer(steers[i], forward[i]) {
            None => {
                break;
            },
            Some(t) => {
                out.push(t);
            },
        }
        i = i + 1;
    }
    out
}

/// Name of a Reeds-Shepp path: one letter per segment.
pub fn rs_path_name(segments: &Vec<ReedsSheppSegmentType>) -> (name: String)
    ensures
        name@ == segments@.map_values(|t: ReedsSheppSegmentType| rs_letter(t)),
{
    let mut name = String::new();
    let mut i: usize = 0;
    while i < segments.len()
        invariant
            i <= segments.len(),
            name@ == segments@.subrange(0, i as int).map_values(|t: ReedsSheppSegmentType| rs_letter(t)),
        decreases segments.len() - i,
    {
        let letter = segments[i].letter();
        name.append(letter);
        assert(segments@.subrange(0, i + 1) =~= segments@.subrange(0, i as int).push(segments@[i as int]));
        assert(name@ =~= segments@.subrange(0, i + 1).map_values(|t: ReedsSheppSegmentType| rs_letter(t)));
        i = i + 1;
    }
    assert(segments@.subrange(0, segments.len() as int) =~= segments@);
    name
}

} // verus!
