//! Constructor tags: the discriminators of data nodes.
//!
//! A tag is either *active* (the reducer replaces a data node that carries
//! it by what the tag computes) or *inert* (the data node is a value).
use vstd::prelude::*;
use vstd::arithmetic::power::pow;
use vstd::arithmetic::power::lemma0_pow;
use vstd::arithmetic::power::lemma1_pow;
use vstd::arithmetic::power::lemma_pow0;
use vstd::arithmetic::power::lemma_pow_increases;
use vstd::arithmetic::power::lemma_pow_positive;
use crate::text::same_text;

verus! {

/// Strict binary operations on numbers. The first argument is called
/// `what`, the second `to`: `- what to` is `to - what`.
#[derive(Debug, Clone, Copy, PartialEq, Eq, Hash, Structural)]
pub enum ArithmeticTag {
    Add,
    Mul,
    Pow,
    Sub,
    Div,
    Eq,
}

/// Helpers that create and take apart user-defined constructors.
#[derive(Debug, Clone, Copy, PartialEq, Eq, Hash, Structural)]
pub enum HelperFunctionTag {
    /// Meta-constructor to create constructors at runtime.
    CreateConstructor,
    Match,
}

/// Effects. The reducer leaves them alone; a driver interprets them.
#[derive(Debug, Clone, Copy, PartialEq, Eq, Hash, Structural)]
pub enum IOTag {
    ReadLine,
    Print,
    Flatmap,
}

/// Operations on byte sequences.
#[derive(Debug, Clone, Copy, PartialEq, Eq, Hash, Structural)]
pub enum BytesOpTag {
    New,
    Get,
    Store,
    Length,
    Push,
    Pop,
}

/// The tag of a data node.
#[derive(Debug, Clone, Copy, PartialEq, Eq, Hash, Structural)]
pub enum ConstructorTag {
    IO(IOTag),
    Arithmetic(ArithmeticTag),
    HelperFunction(HelperFunctionTag),
    CustomTag { uid: usize, arity: usize },
}

/// What an arithmetic tag yields.
#[derive(Debug, Clone, Copy, PartialEq, Eq, Structural)]
pub enum ArithmeticValue {
    Number(usize),
    /// The answer of `Eq`, which the reducer turns into a Church boolean.
    Boolean(bool),
}

/// The texts of a list of names.
pub open spec fn texts(names: Seq<&'static str>) -> Seq<Seq<char>> {
    Seq::new(names.len(), |i: int| names[i]@)
}

impl ArithmeticTag {
    pub open spec fn names(self) -> Seq<Seq<char>> {
        seq!["what"@, "to"@]
    }

    pub fn argument_names(&self) -> (r: Vec<&'static str>)
        ensures
            texts(r@) == self.names(),
    {
        let r = vec!["what", "to"];
        proof {
            assert(texts(r@) =~= self.names());
        }
        r
    }

    /// The number that the tag computes over the naturals; `None` where it
    /// computes none: for `Eq`, and for a division by zero.
    pub open spec fn number(self, what: nat, to: nat) -> Option<nat> {
        match self {
            ArithmeticTag::Add => Some(what + to),
            ArithmeticTag::Mul => Some(what * to),
            ArithmeticTag::Pow => Some(pow(to as int, what) as nat),
            ArithmeticTag::Sub => Some(
                if to >= what {
                    (to - what) as nat
                } else {
                    0
                },
            ),
            ArithmeticTag::Div => if what == 0 {
                None
            } else {
                Some(to / what)
            },
            ArithmeticTag::Eq => None,
        }
    }

    /// The tag computes something on these numbers: `Eq` always does, the
    /// others where [`Self::number`] exists and fits a machine word.
    pub open spec fn defined(self, what: usize, to: usize) -> bool {
        self == ArithmeticTag::Eq || (self.number(what as nat, to as nat) is Some && self.number(
            what as nat,
            to as nat,
        )->Some_0 <= usize::MAX)
    }

    /// Computes the tag on two numbers. `Eq` answers with a boolean. The
    /// other tags answer with the number of [`Self::number`] where it
    /// exists and fits a machine word, and fail otherwise.
    pub fn compute(&self, what: usize, to: usize) -> (r: Result<ArithmeticValue, &'static str>)
        ensures
            *self == ArithmeticTag::Eq ==> r == Ok::<ArithmeticValue, &'static str>(
                ArithmeticValue::Boolean(what == to),
            ),
            *self != ArithmeticTag::Eq ==> (match self.number(what as nat, to as nat) {
                Some(v) => if v <= usize::MAX {
                    r == Ok::<ArithmeticValue, &'static str>(ArithmeticValue::Number(v as usize))
                } else {
                    r is Err
                },
                None => r is Err,
            }),
    {
        match self {
            ArithmeticTag::Eq => Ok(ArithmeticValue::Boolean(what == to)),
            ArithmeticTag::Add => match what.checked_add(to) {
                Some(v) => Ok(ArithmeticValue::Number(v)),
                None => Err("arithmetic overflow"),
            },
            ArithmeticTag::Mul => match what.checked_mul(to) {
                Some(v) => Ok(ArithmeticValue::Number(v)),
                None => Err("arithmetic overflow"),
            },
            ArithmeticTag::Sub => if to >= what {
                Ok(ArithmeticValue::Number(to - what))
            } else {
                Ok(ArithmeticValue::Number(0))
            },
            ArithmeticTag::Div => if what == 0 {
                Err("division by zero")
            } else {
                Ok(ArithmeticValue::Number(to / what))
            },
            ArithmeticTag::Pow => {
                proof {
                    if to > 0 {
                        lemma_pow_positive(to as int, what as nat);
                    } else if what > 0 {
                        lemma0_pow(what as nat);
                    } else {
                        lemma_pow0(0);
                    }
                }
                match power(to, what) {
                    Some(v) => Ok(ArithmeticValue::Number(v)),
                    None => Err("arithmetic overflow"),
                }
            },
        }
    }
}

/// `base` to the power `exponent`, if it fits a machine word.
pub fn power(base: usize, exponent: usize) -> (r: Option<usize>)
    ensures
        r == if pow(base as int, exponent as nat) <= usize::MAX {
            Some(pow(base as int, exponent as nat) as usize)
        } else {
            None
        },
{
    if exponent == 0 {
        proof {
            lemma_pow0(base as int);
        }
        return Some(1);
    }
    if base == 0 {
        proof {
            lemma0_pow(exponent as nat);
        }
        return Some(0);
    }
    if base == 1 {
        proof {
            lemma1_pow(exponent as nat);
        }
        return Some(1);
    }
    let mut acc: usize = 1;
    let mut i: usize = 0;
    proof {
        lemma_pow0(base as int);
    }
    while i < exponent
        invariant
            0 <= i <= exponent,
            base >= 2,
            acc == pow(base as int, i as nat),
        decreases exponent - i,
    {
        proof {
            reveal(pow);
            assert(pow(base as int, (i + 1) as nat) == base * pow(base as int, i as nat));
            lemma_pow_increases(base as nat, (i + 1) as nat, exponent as nat);
        }
        match acc.checked_mul(base) {
            Some(v) => {
                proof {
                    assert(acc * base == base * acc) by (nonlinear_arith);
                }
                acc = v;
            },
            None => {
                proof {
                    assert(acc * base == base * acc) by (nonlinear_arith);
                }
                return None;
            },
        }
        i += 1;
    }
    Some(acc)
}

impl HelperFunctionTag {
    pub open spec fn names(self) -> Seq<Seq<char>> {
        match self {
            HelperFunctionTag::CreateConstructor => seq!["arity"@],
            HelperFunctionTag::Match => seq!["constructor"@, "transform"@, "fallback"@, "value"@],
        }
    }

    pub fn argument_names(&self) -> (r: Vec<&'static str>)
        ensures
            texts(r@) == self.names(),
    {
        let r = match self {
            HelperFunctionTag::CreateConstructor => vec!["arity"],
            HelperFunctionTag::Match => vec!["constructor", "transform", "fallback", "value"],
        };
        proof {
            assert(texts(r@) =~= self.names());
        }
        r
    }
}

impl IOTag {
    pub open spec fn names(self) -> Seq<Seq<char>> {
        match self {
            IOTag::ReadLine => Seq::empty(),
            IOTag::Print => seq!["bytes"@],
            IOTag::Flatmap => seq!["transform"@, "io"@],
        }
    }

    pub fn argument_names(&self) -> (r: Vec<&'static str>)
        ensures
            texts(r@) == self.names(),
    {
        let r = match self {
            IOTag::ReadLine => Vec::new(),
            IOTag::Print => vec!["bytes"],
            IOTag::Flatmap => vec!["transform", "io"],
        };
        proof {
            assert(texts(r@) =~= self.names());
        }
        r
    }
}

impl BytesOpTag {
    pub open spec fn names(self) -> Seq<Seq<char>> {
        match self {
            BytesOpTag::New => seq!["size"@],
            BytesOpTag::Get => seq!["index"@, "bytes"@],
            BytesOpTag::Store => seq!["index"@, "value"@, "bytes"@],
            BytesOpTag::Length => seq!["bytes"@],
            BytesOpTag::Push => seq!["value"@, "bytes"@],
            BytesOpTag::Pop => seq!["bytes"@],
        }
    }

    pub fn argument_names(&self) -> (r: Vec<&'static str>)
        ensures
            texts(r@) == self.names(),
    {
        let r = match self {
            BytesOpTag::New => vec!["size"],
            BytesOpTag::Get => vec!["index", "bytes"],
            BytesOpTag::Store => vec!["index", "value", "bytes"],
            BytesOpTag::Length => vec!["bytes"],
            BytesOpTag::Push => vec!["value", "bytes"],
            BytesOpTag::Pop => vec!["bytes"],
        };
        proof {
            assert(texts(r@) =~= self.names());
        }
        r
    }
}

/// The tag that a name of the surface syntax stands for.
///
/// The names of the I/O tags, `#io_readline`, `#io_print` and
/// `#io_flatmap`, are this library's own: a program can reach the tags by
/// no other spelling.
pub open spec fn tag_named(name: Seq<char>) -> Option<ConstructorTag> {
    if name == "#match"@ {
        Some(ConstructorTag::HelperFunction(HelperFunctionTag::Match))
    } else if name == "#constructor"@ {
        Some(ConstructorTag::HelperFunction(HelperFunctionTag::CreateConstructor))
    } else if name == "#io_readline"@ {
        Some(ConstructorTag::IO(IOTag::ReadLine))
    } else if name == "#io_print"@ {
        Some(ConstructorTag::IO(IOTag::Print))
    } else if name == "#io_flatmap"@ {
        Some(ConstructorTag::IO(IOTag::Flatmap))
    } else if name == "=num"@ {
        Some(ConstructorTag::Arithmetic(ArithmeticTag::Eq))
    } else if name == "+"@ {
        Some(ConstructorTag::Arithmetic(ArithmeticTag::Add))
    } else if name == "-"@ {
        Some(ConstructorTag::Arithmetic(ArithmeticTag::Sub))
    } else if name == "*"@ {
        Some(ConstructorTag::Arithmetic(ArithmeticTag::Mul))
    } else if name == "/"@ {
        Some(ConstructorTag::Arithmetic(ArithmeticTag::Div))
    } else if name == "^"@ {
        Some(ConstructorTag::Arithmetic(ArithmeticTag::Pow))
    } else {
        None
    }
}

impl ConstructorTag {
    /// The built-in tag with this name, if there is one.
    pub fn from_str(str: &str) -> (r: Option<Self>)
        ensures
            r == tag_named(str@),
    {
        if same_text(str, "#match") {
            Some(ConstructorTag::HelperFunction(HelperFunctionTag::Match))
        } else if same_text(str, "#constructor") {
            Some(ConstructorTag::HelperFunction(HelperFunctionTag::CreateConstructor))
        } else if same_text(str, "#io_readline") {
            Some(ConstructorTag::IO(IOTag::ReadLine))
        } else if same_text(str, "#io_print") {
            Some(ConstructorTag::IO(IOTag::Print))
        } else if same_text(str, "#io_flatmap") {
            Some(ConstructorTag::IO(IOTag::Flatmap))
        } else if same_text(str, "=num") {
            Some(ConstructorTag::Arithmetic(ArithmeticTag::Eq))
        } else if same_text(str, "+") {
            Some(ConstructorTag::Arithmetic(ArithmeticTag::Add))
        } else if same_text(str, "-") {
            Some(ConstructorTag::Arithmetic(ArithmeticTag::Sub))
        } else if same_text(str, "*") {
            Some(ConstructorTag::Arithmetic(ArithmeticTag::Mul))
        } else if same_text(str, "/") {
            Some(ConstructorTag::Arithmetic(ArithmeticTag::Div))
        } else if same_text(str, "^") {
            Some(ConstructorTag::Arithmetic(ArithmeticTag::Pow))
        } else {
            None
        }
    }

    pub open spec fn names(self) -> Seq<Seq<char>> {
        match self {
            ConstructorTag::IO(tag) => tag.names(),
            ConstructorTag::Arithmetic(tag) => tag.names(),
            ConstructorTag::HelperFunction(tag) => tag.names(),
            ConstructorTag::CustomTag { arity, .. } => Seq::new(arity as nat, |i: int| "param"@),
        }
    }

    pub fn argument_names(&self) -> (r: Vec<&'static str>)
        ensures
            texts(r@) == self.names(),
    {
        match self {
            ConstructorTag::IO(tag) => tag.argument_names(),
            ConstructorTag::Arithmetic(tag) => tag.argument_names(),
            ConstructorTag::HelperFunction(tag) => tag.argument_names(),
            ConstructorTag::CustomTag { arity, .. } => {
                let mut r: Vec<&'static str> = Vec::new();
                let mut i: usize = 0;
                while i < *arity
                    invariant
                        0 <= i <= *arity,
                        r@.len() == i,
                        forall|j: int| 0 <= j < i ==> (#[trigger] r@[j])@ == "param"@,
                    decreases *arity - i,
                {
                    r.push("param");
                    i += 1;
                }
                proof {
                    assert(texts(r@) =~= self.names());
                }
                r
            },
        }
    }

    /// The number of arguments that the tag takes.
    pub open spec fn spec_arity(self) -> nat {
        self.names().len()
    }

    pub fn arity(&self) -> (r: usize)
        ensures
            r == self.spec_arity(),
    {
        match self {
            ConstructorTag::IO(IOTag::ReadLine) => 0,
            ConstructorTag::IO(IOTag::Print) => 1,
            ConstructorTag::IO(IOTag::Flatmap) => 2,
            ConstructorTag::Arithmetic(_) => 2,
            ConstructorTag::HelperFunction(HelperFunctionTag::CreateConstructor) => 1,
            ConstructorTag::HelperFunction(HelperFunctionTag::Match) => 4,
            ConstructorTag::CustomTag { arity, .. } => *arity,
        }
    }

    /// A data node with an inert tag is a value: the reducer returns it
    /// unchanged. Arithmetic and helper tags are active.
    pub open spec fn is_inert(self) -> bool {
        !(self is Arithmetic || self is HelperFunction)
    }

    pub fn is_value(&self) -> (r: bool)
        ensures
            r == self.is_inert(),
    {
        match self {
            ConstructorTag::Arithmetic(_) | ConstructorTag::HelperFunction(_) => false,
            _ => true,
        }
    }
}

} // verus!
