use vstd::prelude::*;
use vstd::string::StringExecFns;

verus! {

/// The line that stands between two fragments of the built text.
pub const SEPARATOR: &'static str = "\n ___________________________ \n ";

/// The fragment that a present field contributes: ` - {label} {value} `.
pub open spec fn fragment(label: Seq<char>, value: Seq<char>) -> Seq<char> {
    " - "@ + label + " "@ + value + " "@
}

/// The fragments after one more field: an absent value leaves them as they are.
pub open spec fn added(
    parts: Seq<Seq<char>>,
    label: Seq<char>,
    value: Option<Seq<char>>,
) -> Seq<Seq<char>> {
    match value {
        None => parts,
        Some(v) => parts.push(fragment(label, v)),
    }
}

/// The fragments joined, in order, with the separator between neighbours.
pub open spec fn joined(parts: Seq<Seq<char>>) -> Seq<char>
    decreases parts.len(),
{
    if parts.len() == 0 {
        Seq::empty()
    } else if parts.len() == 1 {
        parts[0]
    } else {
        joined(parts.drop_last()) + SEPARATOR@ + parts.last()
    }
}

/// A field without a value adds nothing: added alone to a new builder, the
/// built text is empty, whatever its label.
pub proof fn lemma_absent_field_builds_empty(label: Seq<char>)
    ensures
        joined(added(Seq::empty(), label, None)) == Seq::<char>::empty(),
{
}

/// Collects rendered ` - label value ` fragments and joins them into one text.
pub struct StringBuilder {
    str: Vec<String>,
}

impl View for StringBuilder {
    type V = Seq<Seq<char>>;

    closed spec fn view(&self) -> Seq<Seq<char>> {
        self.str@.map_values(|s: String| s@)
    }
}

impl StringBuilder {
    /// A builder with no fragments.
    pub fn new() -> (b: Self)
        ensures
            b@ == Seq::<Seq<char>>::empty(),
    {
        let b = Self { str: Vec::new() };
        assert(b@ =~= Seq::<Seq<char>>::empty());
        b
    }

    /// Adds the fragment of `label` and `value` when `value` is present, and
    /// nothing when it is absent.
    pub fn add(self, prefix: &str, value: Option<String>) -> (b: Self)
        ensures
            b@ == added(self@, prefix@, value.deep_view()),
    {
        match value {
            None => self,
            Some(v) => {
                let mut piece = String::from_str(" - ");
                piece.append(prefix);
                piece.append(" ");
                piece.append(v.as_str());
                piece.append(" ");
                let mut parts = self.str;
                parts.push(piece);
                let b = Self { str: parts };
                assert(b@ =~= self@.push(fragment(prefix@, v@)));
                b
            },
        }
    }

    /// The fragments joined with the separator; empty when none was added.
    pub fn get_str(self) -> (s: String)
        ensures
            s@ == joined(self@),
    {
        let mut out = String::new();
        let mut i: usize = 0;
        while i < self.str.len()
            invariant
                i <= self.str@.len(),
                out@ == joined(self@.subrange(0, i as int)),
            decreases self.str@.len() - i,
        {
            let ghost done = self@.subrange(0, i as int);
            let ghost next = self@.subrange(0, i + 1);
            if i > 0 {
                out.append(SEPARATOR);
            }
            out.append(self.str[i].as_str());
            proof {
                assert(next.drop_last() =~= done);
                assert(next.last() == self.str@[i as int]@);
                if i == 0 {
                    assert(joined(done) =~= Seq::<char>::empty());
                }
            }
            i += 1;
        }
        assert(self@.subrange(0, self.str@.len() as int) =~= self@);
        out
    }
}

} // verus!
