use vstd::prelude::*;

verus! {

/// A decoded value of the format. The tag of each kind is fixed, see
/// [`Value::tag`]. Floating-point payloads are held as their IEEE-754 bit
/// pattern, which is what the wire carries and what a byte-exact round trip
/// needs.
#[derive(Debug, PartialEq)]
pub enum Value {
    Byte(i8),
    Short(i16),
    Int(i32),
    Long(i64),
    /// The bit pattern of an IEEE-754 binary32 number.
    Float(u32),
    /// The bit pattern of an IEEE-754 binary64 number.
    Double(u64),
    ByteArray(Vec<i8>),
    String(String),
    List(Vec<Value>),
    /// A compound: the root-name slot, then the entries in order. The name
    /// slot belongs to the document root; the decoder leaves it `None` on
    /// every nested compound, whose name is stored once, in its parent's entry.
    Compound(Option<String>, Vec<(String, Value)>),
    IntArray(Vec<i32>),
    LongArray(Vec<i64>),
}

/// The mathematical model of a [`Value`]: the same tree with sequences in
/// place of vectors and character sequences in place of strings.
pub enum Tree {
    Byte(i8),
    Short(i16),
    Int(i32),
    Long(i64),
    Float(u32),
    Double(u64),
    ByteArray(Seq<i8>),
    Str(Seq<char>),
    List(Seq<Tree>),
    Compound(Option<Seq<char>>, Seq<(Seq<char>, Tree)>),
    IntArray(Seq<i32>),
    LongArray(Seq<i64>),
}

pub const TAG_END: u8 = 0;
pub const TAG_BYTE: u8 = 1;
pub const TAG_SHORT: u8 = 2;
pub const TAG_INT: u8 = 3;
pub const TAG_LONG: u8 = 4;
pub const TAG_FLOAT: u8 = 5;
pub const TAG_DOUBLE: u8 = 6;
pub const TAG_BYTE_ARRAY: u8 = 7;
pub const TAG_STRING: u8 = 8;
pub const TAG_LIST: u8 = 9;
pub const TAG_COMPOUND: u8 = 10;
pub const TAG_INT_ARRAY: u8 = 11;
pub const TAG_LONG_ARRAY: u8 = 12;

impl Tree {
    /// The tag of a tree's kind.
    pub open spec fn tag(self) -> u8 {
        match self {
            Tree::Byte(_) => TAG_BYTE,
            Tree::Short(_) => TAG_SHORT,
            Tree::Int(_) => TAG_INT,
            Tree::Long(_) => TAG_LONG,
            Tree::Float(_) => TAG_FLOAT,
            Tree::Double(_) => TAG_DOUBLE,
            Tree::ByteArray(_) => TAG_BYTE_ARRAY,
            Tree::Str(_) => TAG_STRING,
            Tree::List(_) => TAG_LIST,
            Tree::Compound(_, _) => TAG_COMPOUND,
            Tree::IntArray(_) => TAG_INT_ARRAY,
            Tree::LongArray(_) => TAG_LONG_ARRAY,
        }
    }
}

impl Value {
    /// The model of this value. The index guards in the element closures let
    /// the termination check see that each recursive call is on an element.
    pub open spec fn view(&self) -> Tree
        decreases self,
    {
        match self {
            Value::Byte(x) => Tree::Byte(*x),
            Value::Short(x) => Tree::Short(*x),
            Value::Int(x) => Tree::Int(*x),
            Value::Long(x) => Tree::Long(*x),
            Value::Float(x) => Tree::Float(*x),
            Value::Double(x) => Tree::Double(*x),
            Value::ByteArray(a) => Tree::ByteArray(a@),
            Value::String(s) => Tree::Str(s@),
            Value::List(vs) => Tree::List(
                Seq::new(
                    vs@.len(),
                    |i: int|
                        if 0 <= i < vs@.len() {
                            vs@[i].view()
                        } else {
                            Tree::Byte(0)
                        },
                ),
            ),
            Value::Compound(name, es) => Tree::Compound(
                match name {
                    Some(n) => Some(n@),
                    None => None,
                },
                Seq::new(
                    es@.len(),
                    |i: int|
                        if 0 <= i < es@.len() {
                            (es@[i].0@, es@[i].1.view())
                        } else {
                            (Seq::empty(), Tree::Byte(0))
                        },
                ),
            ),
            Value::IntArray(a) => Tree::IntArray(a@),
            Value::LongArray(a) => Tree::LongArray(a@),
        }
    }

    /// The tag of this value's kind: it depends on the variant alone.
    pub fn tag(&self) -> (t: u8)
        ensures
            t == self.view().tag(),
            1 <= t <= 12,
    {
        match self {
            Value::Byte(_) => TAG_BYTE,
            Value::Short(_) => TAG_SHORT,
            Value::Int(_) => TAG_INT,
            Value::Long(_) => TAG_LONG,
            Value::Float(_) => TAG_FLOAT,
            Value::Double(_) => TAG_DOUBLE,
            Value::ByteArray(_) => TAG_BYTE_ARRAY,
            Value::String(_) => TAG_STRING,
            Value::List(_) => TAG_LIST,
            Value::Compound(_, _) => TAG_COMPOUND,
            Value::IntArray(_) => TAG_INT_ARRAY,
            Value::LongArray(_) => TAG_LONG_ARRAY,
        }
    }
}

/// The models of a sequence of values.
pub open spec fn views(vs: Seq<Value>) -> Seq<Tree> {
    Seq::new(vs.len(), |i: int| vs[i].view())
}

/// The models of a sequence of named entries.
pub open spec fn entry_views(es: Seq<(String, Value)>) -> Seq<(Seq<char>, Tree)> {
    Seq::new(es.len(), |i: int| (es[i].0@, es[i].1.view()))
}

} // verus!
