//! Paths into a document tree and their written form.

use vstd::prelude::*;
use vstd::string::StringExecFns;

verus! {

/// One step from a node to a child of it.
#[derive(Debug)]
pub enum Segment {
    /// The member of a mapping with this key.
    Key(String),
    /// The item of a sequence at this position.
    Index(usize),
}

/// The mathematical model of a [`Segment`].
pub enum Step {
    Key(Seq<char>),
    Index(nat),
}

/// The address of a node: the steps that lead to it from the root. The
/// empty path is the root itself. Two paths are equal when they are equal
/// step by step.
#[derive(Debug)]
pub struct Path {
    pub segments: Vec<Segment>,
}

impl View for Segment {
    type V = Step;

    open spec fn view(&self) -> Step {
        match self {
            Segment::Key(k) => Step::Key(k@),
            Segment::Index(i) => Step::Index(*i as nat),
        }
    }
}

/// The steps of a run of segments, one for one.
pub open spec fn steps(segments: Seq<Segment>) -> Seq<Step> {
    Seq::new(segments.len(), |i: int| segments[i]@)
}

impl View for Path {
    type V = Seq<Step>;

    open spec fn view(&self) -> Seq<Step> {
        steps(self.segments@)
    }
}

/// The character that stands for a digit.
pub open spec fn digit(d: nat) -> char {
    if d == 0 {
        '0'
    } else if d == 1 {
        '1'
    } else if d == 2 {
        '2'
    } else if d == 3 {
        '3'
    } else if d == 4 {
        '4'
    } else if d == 5 {
        '5'
    } else if d == 6 {
        '6'
    } else if d == 7 {
        '7'
    } else if d == 8 {
        '8'
    } else {
        '9'
    }
}

/// A number written in base ten, without leading zeros.
pub open spec fn decimal(n: nat) -> Seq<char>
    decreases n,
{
    if n < 10 {
        seq![digit(n)]
    } else {
        decimal(n / 10).push(digit(n % 10))
    }
}

/// The written form of a path. A key is written as it is, after a `.`
/// unless it is the first step; a position is written in base ten between
/// `[` and `]`, with nothing before it.
pub open spec fn render(path: Seq<Step>) -> Seq<char>
    decreases path.len(),
{
    if path.len() == 0 {
        Seq::empty()
    } else {
        let front = render(path.drop_last());
        match path.last() {
            Step::Key(k) => if path.len() == 1 {
                k
            } else {
                front + seq!['.'] + k
            },
            Step::Index(n) => front + seq!['['] + decimal(n) + seq![']'],
        }
    }
}

impl PartialEq for Segment {
    fn eq(&self, other: &Segment) -> (equal: bool) {
        match (self, other) {
            (Segment::Key(a), Segment::Key(b)) => *a == *b,
            (Segment::Index(a), Segment::Index(b)) => *a == *b,
            _ => false,
        }
    }
}

impl vstd::std_specs::cmp::PartialEqSpecImpl for Segment {
    open spec fn obeys_eq_spec() -> bool {
        true
    }

    open spec fn eq_spec(&self, other: &Segment) -> bool {
        self@ == other@
    }
}

impl PartialEq for Path {
    fn eq(&self, other: &Path) -> (equal: bool) {
        if self.segments.len() != other.segments.len() {
            assert(self@.len() != other@.len());
            return false;
        }
        let mut i: usize = 0;
        while i < self.segments.len()
            invariant
                i <= self.segments.len(),
                self.segments.len() == other.segments.len(),
                forall|j: int| 0 <= j < i ==> (#[trigger] self@[j]) == other@[j],
            decreases self.segments.len() - i,
        {
            if !(self.segments[i] == other.segments[i]) {
                assert(self@[i as int] != other@[i as int]);
                return false;
            }
            i += 1;
        }
        assert(self@ =~= other@);
        true
    }
}

impl vstd::std_specs::cmp::PartialEqSpecImpl for Path {
    open spec fn obeys_eq_spec() -> bool {
        true
    }

    open spec fn eq_spec(&self, other: &Path) -> bool {
        self@ == other@
    }
}

impl Clone for Segment {
    fn clone(&self) -> (copy: Segment)
        ensures
            copy@ == self@,
    {
        match self {
            Segment::Key(k) => Segment::Key(k.clone()),
            Segment::Index(i) => Segment::Index(*i),
        }
    }
}

impl Clone for Path {
    fn clone(&self) -> (copy: Path)
        ensures
            copy@ == self@,
    {
        let mut segments: Vec<Segment> = Vec::new();
        let mut i: usize = 0;
        while i < self.segments.len()
            invariant
                i <= self.segments.len(),
                segments.len() == i,
                forall|j: int| 0 <= j < i ==> (#[trigger] segments[j])@ == self.segments[j]@,
            decreases self.segments.len() - i,
        {
            segments.push(self.segments[i].clone());
            i += 1;
        }
        Path { segments }
    }
}

/// The text of one digit.
fn digit_text(d: usize) -> (text: &'static str)
    requires
        d < 10,
    ensures
        text@ == seq![digit(d as nat)],
{
    proof {
        reveal_strlit("0");
        reveal_strlit("1");
        reveal_strlit("2");
        reveal_strlit("3");
        reveal_strlit("4");
        reveal_strlit("5");
        reveal_strlit("6");
        reveal_strlit("7");
        reveal_strlit("8");
        reveal_strlit("9");
    }
    let text = if d == 0 {
        "0"
    } else if d == 1 {
        "1"
    } else if d == 2 {
        "2"
    } else if d == 3 {
        "3"
    } else if d == 4 {
        "4"
    } else if d == 5 {
        "5"
    } else if d == 6 {
        "6"
    } else if d == 7 {
        "7"
    } else if d == 8 {
        "8"
    } else {
        "9"
    };
    text
}

/// Appends a number in base ten.
fn append_decimal(out: &mut String, n: usize)
    ensures
        final(out)@ == old(out)@ + decimal(n as nat),
    decreases n,
{
    if n >= 10 {
        append_decimal(out, n / 10);
    }
    out.append(digit_text(n % 10));
}

impl Path {
    /// The path of the root.
    pub fn root() -> (path: Path)
        ensures
            path@ == Seq::<Step>::empty(),
    {
        let path = Path { segments: Vec::new() };
        path
    }

    /// The number of steps.
    pub fn len(&self) -> (n: usize)
        ensures
            n == self@.len(),
    {
        self.segments.len()
    }

    /// The path of the member with the given key, below this path.
    pub fn child_key(&self, key: &String) -> (child: Path)
        ensures
            child@ == self@.push(Step::Key(key@)),
    {
        let mut child = self.clone();
        child.segments.push(Segment::Key(key.clone()));
        child
    }

    /// The path of the item at the given position, below this path.
    pub fn child_index(&self, index: usize) -> (child: Path)
        ensures
            child@ == self@.push(Step::Index(index as nat)),
    {
        let mut child = self.clone();
        child.segments.push(Segment::Index(index));
        child
    }

    /// The written form of the path, such as `a.b[2].c`.
    pub fn render(&self) -> (text: String)
        ensures
            text@ == render(self@),
    {
        let mut text = String::new();
        let mut i: usize = 0;
        while i < self.segments.len()
            invariant
                i <= self.segments.len(),
                text@ == render(self@.take(i as int)),
            decreases self.segments.len() - i,
        {
            proof {
                let next = self@.take(i + 1);
                assert(next.drop_last() =~= self@.take(i as int));
            }
            match &self.segments[i] {
                Segment::Key(k) => {
                    if i > 0 {
                        text.append(".");
                    }
                    text.append(k.as_str());
                    proof {
                        reveal_strlit(".");
                    }
                },
                Segment::Index(n) => {
                    text.append("[");
                    append_decimal(&mut text, *n);
                    text.append("]");
                    proof {
                        reveal_strlit("[");
                        reveal_strlit("]");
                    }
                },
            }
            i += 1;
        }
        assert(self@.take(i as int) =~= self@);
        text
    }
}

} // verus!
