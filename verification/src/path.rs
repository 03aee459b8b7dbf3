//! Segments, and the steps in which a path is measured.

use vstd::prelude::*;
use crate::number::is_float_literal;
use crate::parser::is_command_letter;
use crate::parser::param_count;

verus! {

/// One command of a path with its parameters. The parameters are kept as
/// the number texts that were read, in the order in which they stood.
#[derive(Debug, PartialEq, Eq)]
pub struct PathSegment {
    pub _type: char,
    pub values: Vec<String>,
}

/// A segment as a command letter and the texts of its parameters.
pub struct SegmentView {
    pub command: char,
    pub values: Seq<Seq<char>>,
}

impl SegmentView {
    /// A segment is well formed when its letter is a command, it has exactly
    /// as many parameters as the command takes, and each is a number.
    pub open spec fn well_formed(self) -> bool {
        &&& is_command_letter(self.command)
        &&& self.values.len() == param_count(self.command)
        &&& forall|i: int| 0 <= i < self.values.len() ==> is_float_literal(#[trigger] self.values[i])
    }
}

impl View for PathSegment {
    type V = SegmentView;

    open spec fn view(&self) -> SegmentView {
        SegmentView { command: self._type, values: self.values@.map_values(|s: String| s@) }
    }
}

impl PathSegment {
    pub fn new(_type: char, values: Vec<String>) -> (r: Self)
        ensures
            r._type == _type,
            r.values == values,
    {
        PathSegment { _type, values }
    }
}

/// The views of a vector of segments.
pub open spec fn views(segments: Seq<PathSegment>) -> Seq<SegmentView> {
    segments.map_values(|s: PathSegment| s@)
}

/// Into how many straight pieces a curve is cut to measure it.
pub const SPLIT_COUNT: usize = 20;

/// What the ten pairs of command letters do.
pub enum Category {
    Move,
    Line,
    Horizontal,
    Vertical,
    Close,
    Quadratic,
    SmoothQuadratic,
    Cubic,
    SmoothCubic,
    Arc,
}

/// The kind of a command letter; `None` for any other character.
pub open spec fn category(command: char) -> Option<Category> {
    if command == 'M' || command == 'm' {
        Some(Category::Move)
    } else if command == 'L' || command == 'l' {
        Some(Category::Line)
    } else if command == 'H' || command == 'h' {
        Some(Category::Horizontal)
    } else if command == 'V' || command == 'v' {
        Some(Category::Vertical)
    } else if command == 'Z' || command == 'z' {
        Some(Category::Close)
    } else if command == 'Q' || command == 'q' {
        Some(Category::Quadratic)
    } else if command == 'T' || command == 't' {
        Some(Category::SmoothQuadratic)
    } else if command == 'C' || command == 'c' {
        Some(Category::Cubic)
    } else if command == 'S' || command == 's' {
        Some(Category::SmoothCubic)
    } else if command == 'A' || command == 'a' {
        Some(Category::Arc)
    } else {
        None
    }
}

/// A lower-case command gives its coordinates relative to the current point.
pub open spec fn is_relative(command: char) -> bool {
    'a' <= command && command <= 'z'
}

/// Where a point of a step is found. Every source is read in the state in
/// which the step begins.
#[derive(Clone, Copy, Debug, PartialEq, Eq, Structural)]
pub enum Point {
    /// The current point.
    Current,
    /// The last control point mirrored at the current point: twice the
    /// current point less the control point.
    Reflected,
    /// The parameters at `at` and `at + 1` as x and y, moved by the current
    /// point where `relative`.
    Pair { at: usize, relative: bool },
    /// The first parameter as x, moved by the current x where `relative`;
    /// y is that of the current point.
    Horizontal { relative: bool },
    /// The first parameter as y, moved by the current y where `relative`;
    /// x is that of the current point.
    Vertical { relative: bool },
}

/// What one segment asks of whoever measures the path.
#[derive(Clone, Copy, Debug, PartialEq, Eq, Structural)]
pub enum Step {
    /// Nothing: no length, and the current point, the subpath start and the
    /// control point stay as they are.
    Skip,
    /// A subpath starts at `to`: the current point and the subpath start move
    /// there, the control point is forgotten, no length is added.
    Open { to: Point },
    /// A straight line from the current point to `to`, which becomes the
    /// current point. The control point is forgotten.
    Line { to: Point },
    /// A straight line from the current point to the subpath start, which
    /// becomes the current point. The control point is forgotten.
    Close,
    /// A quadratic curve from the current point by `control` to `to`, which
    /// becomes the current point. `control` is the control point from then
    /// on.
    Quadratic { control: Point, to: Point },
    /// A cubic curve from the current point by `control1` and `control2` to
    /// `to`, which becomes the current point. `control1` is the control point
    /// from then on.
    Cubic { control1: Point, control2: Point, to: Point },
    /// An arc of an ellipse from the current point to `to`, which becomes the
    /// current point. The first five parameters are the two radii, the
    /// rotation in degrees, and the two flags, set where not zero. The
    /// control point is forgotten.
    Arc { to: Point },
}

/// What the steps so far have left behind, as far as the next step depends on
/// it.
#[derive(Clone, Copy, Debug, PartialEq, Eq, Structural)]
pub struct Pen {
    /// A subpath has been started, so there is a start to close to.
    pub started: bool,
    /// A control point is kept for a smooth curve to mirror.
    pub smooth: bool,
}

/// The end point of a segment of the given kind. A closepath names none.
pub open spec fn end_point(kind: Category, relative: bool) -> Point {
    match kind {
        Category::Move | Category::Line | Category::SmoothQuadratic => Point::Pair {
            at: 0,
            relative,
        },
        Category::Quadratic | Category::SmoothCubic => Point::Pair { at: 2, relative },
        Category::Cubic => Point::Pair { at: 4, relative },
        Category::Arc => Point::Pair { at: 5, relative },
        Category::Horizontal => Point::Horizontal { relative },
        Category::Vertical => Point::Vertical { relative },
        Category::Close => Point::Current,
    }
}

/// The control point that a smooth curve supplies by itself: the mirrored
/// control point where one is kept, else the current point.
pub open spec fn mirrored(pen: Pen) -> Point {
    if pen.smooth {
        Point::Reflected
    } else {
        Point::Current
    }
}

impl Pen {
    /// Before the first segment: no subpath, no control point.
    pub open spec fn initial() -> Pen {
        Pen { started: false, smooth: false }
    }

    /// The step that a segment of `command` takes.
    ///
    /// A moveto opens a subpath. A lineto of any kind draws a line, but
    /// opens a subpath at its coordinates, taken as absolute, where none has
    /// been started. A closepath closes a started subpath and is skipped
    /// otherwise. Curves take their points from the parameters in order;
    /// the smooth ones supply their first control point themselves. A
    /// character that is no command is skipped.
    pub open spec fn step_for(self, command: char) -> Step {
        let relative = is_relative(command);
        match category(command) {
            None => Step::Skip,
            Some(Category::Move) => Step::Open { to: end_point(Category::Move, relative) },
            Some(Category::Close) => if self.started {
                Step::Close
            } else {
                Step::Skip
            },
            Some(Category::Quadratic) => Step::Quadratic {
                control: Point::Pair { at: 0, relative },
                to: end_point(Category::Quadratic, relative),
            },
            Some(Category::SmoothQuadratic) => Step::Quadratic {
                control: mirrored(self),
                to: end_point(Category::SmoothQuadratic, relative),
            },
            Some(Category::Cubic) => Step::Cubic {
                control1: Point::Pair { at: 0, relative },
                control2: Point::Pair { at: 2, relative },
                to: end_point(Category::Cubic, relative),
            },
            Some(Category::SmoothCubic) => Step::Cubic {
                control1: mirrored(self),
                control2: Point::Pair { at: 0, relative },
                to: end_point(Category::SmoothCubic, relative),
            },
            Some(Category::Arc) => Step::Arc { to: end_point(Category::Arc, relative) },
            Some(line) => if self.started {
                Step::Line { to: end_point(line, relative) }
            } else {
                Step::Open { to: end_point(line, false) }
            },
        }
    }

    /// The pen after `step`.
    pub open spec fn after(self, step: Step) -> Pen {
        match step {
            Step::Skip => self,
            Step::Open { .. } => Pen { started: true, smooth: false },
            Step::Line { .. } | Step::Close | Step::Arc { .. } => Pen {
                started: self.started,
                smooth: false,
            },
            Step::Quadratic { .. } | Step::Cubic { .. } => Pen {
                started: self.started,
                smooth: true,
            },
        }
    }

    /// The pen before the first segment.
    pub fn new() -> (r: Pen)
        ensures
            r == Pen::initial(),
    {
        Pen { started: false, smooth: false }
    }

    /// The step that a segment of `command` takes, and the pen after it.
    pub fn next_step(&self, command: char) -> (r: (Step, Pen))
        ensures
            r.0 == self.step_for(command),
            r.1 == self.after(r.0),
    {
        let started = self.started;
        let mirror = if self.smooth {
            Point::Reflected
        } else {
            Point::Current
        };
        let opened = Pen { started: true, smooth: false };
        let straight = Pen { started, smooth: false };
        let curved = Pen { started, smooth: true };
        match command {
            'M' => (Step::Open { to: Point::Pair { at: 0, relative: false } }, opened),
            'm' => (Step::Open { to: Point::Pair { at: 0, relative: true } }, opened),
            'L' => if started {
                (Step::Line { to: Point::Pair { at: 0, relative: false } }, straight)
            } else {
                (Step::Open { to: Point::Pair { at: 0, relative: false } }, opened)
            },
            'l' => if started {
                (Step::Line { to: Point::Pair { at: 0, relative: true } }, straight)
            } else {
                (Step::Open { to: Point::Pair { at: 0, relative: false } }, opened)
            },
            'H' => if started {
                (Step::Line { to: Point::Horizontal { relative: false } }, straight)
            } else {
                (Step::Open { to: Point::Horizontal { relative: false } }, opened)
            },
            'h' => if started {
                (Step::Line { to: Point::Horizontal { relative: true } }, straight)
            } else {
                (Step::Open { to: Point::Horizontal { relative: false } }, opened)
            },
            'V' => if started {
                (Step::Line { to: Point::Vertical { relative: false } }, straight)
            } else {
                (Step::Open { to: Point::Vertical { relative: false } }, opened)
            },
            'v' => if started {
                (Step::Line { to: Point::Vertical { relative: true } }, straight)
            } else {
                (Step::Open { to: Point::Vertical { relative: false } }, opened)
            },
            'Z' | 'z' => if started {
                (Step::Close, straight)
            } else {
                (Step::Skip, *self)
            },
            'Q' => (
                Step::Quadratic {
                    control: Point::Pair { at: 0, relative: false },
                    to: Point::Pair { at: 2, relative: false },
                },
                curved,
            ),
            'q' => (
                Step::Quadratic {
                    control: Point::Pair { at: 0, relative: true },
                    to: Point::Pair { at: 2, relative: true },
                },
                curved,
            ),
            'T' => (
                Step::Quadratic { control: mirror, to: Point::Pair { at: 0, relative: false } },
                curved,
            ),
            't' => (
                Step::Quadratic { control: mirror, to: Point::Pair { at: 0, relative: true } },
                curved,
            ),
            'C' => (
                Step::Cubic {
                    control1: Point::Pair { at: 0, relative: false },
                    control2: Point::Pair { at: 2, relative: false },
                    to: Point::Pair { at: 4, relative: false },
                },
                curved,
            ),
            'c' => (
                Step::Cubic {
                    control1: Point::Pair { at: 0, relative: true },
                    control2: Point::Pair { at: 2, relative: true },
                    to: Point::Pair { at: 4, relative: true },
                },
                curved,
            ),
            'S' => (
                Step::Cubic {
                    control1: mirror,
                    control2: Point::Pair { at: 0, relative: false },
                    to: Point::Pair { at: 2, relative: false },
                },
                curved,
            ),
            's' => (
                Step::Cubic {
                    control1: mirror,
                    control2: Point::Pair { at: 0, relative: true },
                    to: Point::Pair { at: 2, relative: true },
                },
                curved,
            ),
            'A' => (Step::Arc { to: Point::Pair { at: 5, relative: false } }, straight),
            'a' => (Step::Arc { to: Point::Pair { at: 5, relative: true } }, straight),
            _ => (Step::Skip, *self),
        }
    }
}

impl Point {
    /// How many of the leading parameters must be there to find the point.
    pub open spec fn reads(self) -> nat {
        match self {
            Point::Current | Point::Reflected => 0,
            Point::Pair { at, .. } => (at + 2) as nat,
            Point::Horizontal { .. } | Point::Vertical { .. } => 1,
        }
    }
}

/// The larger of two counts.
pub open spec fn larger(a: nat, b: nat) -> nat {
    if a >= b {
        a
    } else {
        b
    }
}

impl Step {
    /// How many of the leading parameters the step reads.
    pub open spec fn reads(self) -> nat {
        match self {
            Step::Skip | Step::Close => 0,
            Step::Open { to } | Step::Line { to } => to.reads(),
            Step::Quadratic { control, to } => larger(control.reads(), to.reads()),
            Step::Cubic { control1, control2, to } => larger(
                control1.reads(),
                larger(control2.reads(), to.reads()),
            ),
            Step::Arc { to } => larger(5, to.reads()),
        }
    }

    /// The step adds to the length of the path.
    pub open spec fn measures(self) -> bool {
        !(self is Skip) && !(self is Open)
    }

    /// The step is a curve with control points.
    pub open spec fn curves(self) -> bool {
        self is Quadratic || self is Cubic
    }
}

/// The command letters of a sequence of segments.
pub open spec fn commands(segments: Seq<SegmentView>) -> Seq<char> {
    segments.map_values(|s: SegmentView| s.command)
}

/// The pen before the segment at `i`, after the steps of all those before it.
pub open spec fn pen_at(commands: Seq<char>, i: int) -> Pen
    decreases i,
{
    if i <= 0 {
        Pen::initial()
    } else {
        let before = pen_at(commands, i - 1);
        before.after(before.step_for(commands[i - 1]))
    }
}

/// The step of the segment at `i`.
pub open spec fn step_at(commands: Seq<char>, i: int) -> Step {
    pen_at(commands, i).step_for(commands[i])
}

/// The commands that can start a subpath: the moveto and the three linetos.
pub open spec fn opens(command: char) -> bool {
    category(command) == Some(Category::Move) || category(command) == Some(Category::Line)
        || category(command) == Some(Category::Horizontal) || category(command) == Some(
        Category::Vertical,
    )
}

/// The steps of a path, one for each segment and in their order: what is to
/// be measured, and between which points.
pub fn plan(segments: &Vec<PathSegment>) -> (r: Vec<Step>)
    ensures
        r.len() == segments.len(),
        forall|i: int| 0 <= i < r.len() ==> r[i] == step_at(commands(views(segments@)), i),
{
    let ghost letters = commands(views(segments@));
    let mut steps: Vec<Step> = Vec::new();
    let mut pen = Pen::new();
    let mut i: usize = 0;
    while i < segments.len()
        invariant
            i <= segments.len(),
            letters == commands(views(segments@)),
            steps.len() == i,
            pen == pen_at(letters, i as int),
            forall|j: int| 0 <= j < i ==> steps[j] == step_at(letters, j),
        decreases segments.len() - i,
    {
        let (step, next) = pen.next_step(segments[i]._type);
        assert(letters[i as int] == segments[i as int]._type);
        steps.push(step);
        pen = next;
        i += 1;
    }
    steps
}

/// A step reads exactly the parameters that its command takes: none is left
/// out, and none is asked for that a well-formed segment lacks.
pub proof fn lemma_step_reads_all(pen: Pen, command: char)
    ensures
        pen.step_for(command).reads() == param_count(command),
{
}

/// The steps of well-formed segments find every parameter that they read,
/// and read every parameter that is there.
pub proof fn lemma_steps_fit(segments: Seq<SegmentView>, i: int)
    requires
        0 <= i < segments.len(),
        segments[i].well_formed(),
    ensures
        step_at(commands(segments), i).reads() == segments[i].values.len(),
{
    lemma_step_reads_all(pen_at(commands(segments), i), segments[i].command);
}

/// A subpath has been started exactly when a moveto or a lineto came before.
pub proof fn lemma_started(commands: Seq<char>, i: int)
    requires
        0 <= i <= commands.len(),
    ensures
        pen_at(commands, i).started <==> exists|j: int| 0 <= j < i && opens(#[trigger] commands[j]),
    decreases i,
{
    if i > 0 {
        lemma_started(commands, i - 1);
        if pen_at(commands, i - 1).started {
            let j = choose|j: int| 0 <= j < i - 1 && opens(#[trigger] commands[j]);
            assert(opens(commands[j]));
        } else if opens(commands[i - 1]) {
        } else {
            if exists|j: int| 0 <= j < i && opens(#[trigger] commands[j]) {
                let j = choose|j: int| 0 <= j < i && opens(#[trigger] commands[j]);
                assert(j < i - 1);
            }
        }
    }
}

/// A closepath with no moveto and no lineto before it does nothing: it adds
/// no length and moves no point.
pub proof fn lemma_close_without_start(commands: Seq<char>, i: int)
    requires
        0 <= i < commands.len(),
        category(commands[i]) == Some(Category::Close),
        forall|j: int| 0 <= j < i ==> !opens(#[trigger] commands[j]),
    ensures
        step_at(commands, i) == Step::Skip,
        pen_at(commands, i + 1) == pen_at(commands, i),
{
    lemma_started(commands, i);
}

/// A closepath with a moveto or a lineto before it measures the way back to
/// the start of the subpath and ends there.
pub proof fn lemma_close_after_start(commands: Seq<char>, i: int, j: int)
    requires
        0 <= j < i < commands.len(),
        category(commands[i]) == Some(Category::Close),
        opens(commands[j]),
    ensures
        step_at(commands, i) == Step::Close,
{
    lemma_started(commands, i);
}

/// A control point is kept after a curve, forgotten after every other step
/// that measures or opens, and left as it was by a skipped segment.
pub proof fn lemma_control_kept(commands: Seq<char>, i: int)
    requires
        0 <= i < commands.len(),
    ensures
        step_at(commands, i) is Skip ==> pen_at(commands, i + 1).smooth == pen_at(
            commands,
            i,
        ).smooth,
        !(step_at(commands, i) is Skip) ==> pen_at(commands, i + 1).smooth == step_at(
            commands,
            i,
        ).curves(),
{
}

/// A smooth curve that follows no curve takes the current point as its first
/// control point, and so does one at the very start of a path.
pub proof fn lemma_smooth_fallback(commands: Seq<char>, i: int)
    requires
        0 <= i < commands.len(),
        i > 0 ==> !(step_at(commands, i - 1) is Skip) && !step_at(commands, i - 1).curves(),
    ensures
        category(commands[i]) == Some(Category::SmoothQuadratic) ==> step_at(commands, i)
            == (Step::Quadratic {
            control: Point::Current,
            to: Point::Pair { at: 0, relative: is_relative(commands[i]) },
        }),
        category(commands[i]) == Some(Category::SmoothCubic) ==> step_at(commands, i)
            == (Step::Cubic {
            control1: Point::Current,
            control2: Point::Pair { at: 0, relative: is_relative(commands[i]) },
            to: Point::Pair { at: 2, relative: is_relative(commands[i]) },
        }),
{
    if i > 0 {
        lemma_control_kept(commands, i - 1);
    }
}

} // verus!
