use vstd::prelude::*;
use crate::de::{
    CharOutcome, Deserializer, Error, Expected, FieldValue, Sequence, char_value, has_name_field, header,
    integer_read, integer_literal, is_char_token, is_element_token, is_value_token, follows_key,
    name_field, strip, text_run, unexpected_at,
};
use crate::lexer::lex_at;
use crate::lexer::Token;

verus! {

broadcast use vstd::std_specs::vec::group_vec_axioms;

/// The integer types a value can be read as.
#[derive(PartialEq, Eq, Structural, Clone, Copy, Debug)]
pub enum IntKind {
    I8,
    I16,
    I32,
    I64,
    U8,
    U16,
    U32,
    U64,
}

impl IntKind {
    /// The least value of the type.
    pub open spec fn min(self) -> int {
        match self {
            IntKind::I8 => i8::MIN as int,
            IntKind::I16 => i16::MIN as int,
            IntKind::I32 => i32::MIN as int,
            IntKind::I64 => i64::MIN as int,
            _ => 0,
        }
    }

    /// The greatest value of the type.
    pub open spec fn max(self) -> int {
        match self {
            IntKind::I8 => i8::MAX as int,
            IntKind::I16 => i16::MAX as int,
            IntKind::I32 => i32::MAX as int,
            IntKind::I64 => i64::MAX as int,
            IntKind::U8 => u8::MAX as int,
            IntKind::U16 => u16::MAX as int,
            IntKind::U32 => u32::MAX as int,
            IntKind::U64 => u64::MAX as int,
        }
    }

    /// The least and the greatest value of the type.
    pub fn bounds(&self) -> (r: (i128, i128))
        ensures
            r.0 == self.min() && r.1 == self.max(),
    {
        match self {
            IntKind::I8 => (i8::MIN as i128, i8::MAX as i128),
            IntKind::I16 => (i16::MIN as i128, i16::MAX as i128),
            IntKind::I32 => (i32::MIN as i128, i32::MAX as i128),
            IntKind::I64 => (i64::MIN as i128, i64::MAX as i128),
            IntKind::U8 => (0, u8::MAX as i128),
            IntKind::U16 => (0, u16::MAX as i128),
            IntKind::U32 => (0, u32::MAX as i128),
            IntKind::U64 => (0, u64::MAX as i128),
        }
    }
}

/// The shape of the value a decoder is asked for.
#[derive(Debug)]
pub enum Shape {
    Bool,
    Int(IntKind),
    /// A float, handed back as the text of its lexeme.
    Float,
    Char,
    /// A text of a single lexeme.
    Str,
    /// A text of one or more consecutive lexemes.
    String,
    /// A bracketed list, or a run of blocks of one type.
    List(Box<Shape>),
    /// A block of the given type with the given fields, one of which must be
    /// `instance_name`.
    Record { block_type: String, fields: Vec<(String, Shape)> },
}

/// A decoded value.
#[derive(Debug, PartialEq)]
pub enum Value {
    Bool(bool),
    Int(i128),
    Float(String),
    Char(char),
    Str(String),
    List(Vec<Value>),
    /// A block's fields in the order in which they were read; the instance
    /// name comes first, under `instance_name`.
    Record { fields: Vec<(String, Value)> },
}

/// Whether `v` is of the kind that `s` asks for, with an integer in range.
pub open spec fn fits_shape(v: Value, s: Shape) -> bool {
    match (s, v) {
        (Shape::Bool, Value::Bool(b)) => b,
        (Shape::Int(k), Value::Int(i)) => k.min() <= i <= k.max(),
        (Shape::Float, Value::Float(_)) => true,
        (Shape::Char, Value::Char(_)) => true,
        (Shape::Str, Value::Str(_)) => true,
        (Shape::String, Value::Str(_)) => true,
        (Shape::List(_), Value::List(_)) => true,
        (Shape::Record { .. }, Value::Record { .. }) => true,
        _ => false,
    }
}

/// Whether `v` fits `s`, and so does each element or field of `v` one level down.
pub open spec fn fits_two_levels(v: Value, s: Shape) -> bool {
    &&& fits_shape(v, s)
    &&& (s matches Shape::List(e) ==> (v matches Value::List(items) ==> forall|i: int|
        0 <= i < items.len() ==> fits_shape(#[trigger] items@[i], *e)))
    &&& (s matches Shape::Record { fields: fs, .. } ==> (v matches Value::Record { fields: vs }
        ==> fields_fit(vs@, fs@)))
}

/// Whether each field of `vs` is declared in `fs`, and, but for the instance
/// name, is of the kind declared.
pub open spec fn fields_fit(vs: Seq<(String, Value)>, fs: Seq<(String, Shape)>) -> bool {
    forall|j: int|
        0 <= j < vs.len() ==> #[trigger] field_declared(vs[j], fs)
}

pub open spec fn field_declared(v: (String, Value), fs: Seq<(String, Shape)>) -> bool {
    exists|i: int| 0 <= i < fs.len() && #[trigger] field_fits(v, fs[i])
}

/// Whether the field `v` is the field `f` declares, of the kind declared.
pub open spec fn field_fits(v: (String, Value), f: (String, Shape)) -> bool {
    f.0@ == v.0@ && (f.0@ == crate::de::name_field() || fits_shape(v.1, f.1))
}

/// Whether `fields` declares the instance-name field.
pub open spec fn declares_name_field(fields: Seq<(String, Shape)>) -> bool {
    exists|i: int| 0 <= i < fields.len() && #[trigger] fields[i].0@ == name_field()
}

/// Whether `vs` opens with the instance name, holding `n`.
pub open spec fn starts_with_name(vs: Seq<(String, Value)>, n: Seq<char>) -> bool {
    &&& vs.len() >= 1
    &&& vs[0].0@ == name_field()
    &&& vs[0].1 matches Value::Str(x) && x@ == n
}

/// What decoding a block of type `block_type` with fields `fields` owes, when
/// `old` is the decoder before and `new` after: the checks made before the
/// block is entered, and the instance name coming first.
pub open spec fn record_outcome(
    block_type: Seq<char>,
    fields: Seq<(String, Shape)>,
    old: Deserializer,
    new: Deserializer,
    r: Result<Value, Error>,
) -> bool {
    &&& !declares_name_field(fields) ==> (r matches Err(Error::MissingInstanceName)) && new == old
    &&& declares_name_field(fields) && old.lexer.token != Token::Identifier ==> r is Err
        && unexpected_at(r->Err_0, old.lexer, Expected::TypeName) && new == old
    &&& declares_name_field(fields) && old.lexer.token == Token::Identifier && old.lexer.text()
        != block_type ==> (r matches Err(Error::UnexpectedStruct { name, expected }) && name@
        == old.lexer.text() && expected@ == block_type) && new == old
    &&& r matches Ok(Value::Record { fields: vs }) ==> starts_with_name(
        vs@,
        header(old.lexer.source@, old.lexer.end as int).1,
    )
}

/// A decoded value as a mathematical object.
pub enum ValueView {
    Bool(bool),
    Int(int),
    Float(Seq<char>),
    Char(char),
    Str(Seq<char>),
    List(Seq<ValueView>),
    Record(Seq<(Seq<char>, ValueView)>),
}

/// Whether the value `v` is the mathematical value `w`.
pub open spec fn shows(v: Value, w: ValueView) -> bool
    decreases v,
{
    match v {
        Value::Bool(b) => w == ValueView::Bool(b),
        Value::Int(i) => w == ValueView::Int(i as int),
        Value::Float(t) => w == ValueView::Float(t@),
        Value::Char(c) => w == ValueView::Char(c),
        Value::Str(t) => w == ValueView::Str(t@),
        Value::List(items) => match w {
            ValueView::List(ws) => ws.len() == items.len() && forall|i: int|
                0 <= i < items.len() ==> shows(#[trigger] items@[i], ws[i]),
            _ => false,
        },
        Value::Record { fields } => match w {
            ValueView::Record(ws) => ws.len() == fields.len() && forall|i: int|
                0 <= i < fields.len() ==> (#[trigger] fields@[i]).0@ == ws[i].0 && shows(
                    fields@[i].1,
                    ws[i].1,
                ),
            _ => false,
        },
    }
}

/// The index of the first field of `fs` named `key`, or -1.
pub open spec fn field_index(fs: Seq<(String, Shape)>, key: Seq<char>) -> int {
    if exists|i: int| 0 <= i < fs.len() && #[trigger] fs[i].0@ == key {
        choose|i: int|
            0 <= i < fs.len() && #[trigger] fs[i].0@ == key && forall|j: int|
                0 <= j < i ==> fs[j].0@ != key
    } else {
        -1
    }
}

/// The value that `o` holds, if any.
pub open spec fn value_of(o: Option<(ValueView, int)>) -> ValueView {
    match o {
        Some((w, _)) => w,
        None => ValueView::Bool(false),
    }
}

/// The end position that `o` holds, if any.
pub open spec fn end_of<A>(o: Option<(A, int)>) -> int {
    match o {
        Some((_, e)) => e,
        None => 0,
    }
}

/// `o` with `vs` put in front of its items.
pub open spec fn prepend<A>(vs: Seq<A>, o: Option<(Seq<A>, int)>) -> Option<(Seq<A>, int)> {
    match o {
        Some((ws, e)) => Some((vs + ws, e)),
        None => None,
    }
}

/// The value of shape `sh` that the text `s` holds from position `p` on, and
/// the position after it; `None` where the text does not hold one. Lists and
/// blocks follow the element and field rules of `prim_items`, `run_items` and
/// `rec_fields`.
pub open spec fn decoded(s: Seq<char>, p: int, sh: Shape) -> Option<(ValueView, int)>
    decreases sh, 1nat, 0int,
{
    let t = lex_at(s, p);
    let x = s.subrange(t.1, t.2);
    match sh {
        Shape::Bool => if t.0 == Token::Identifier {
            Some((ValueView::Bool(true), t.2))
        } else {
            None
        },
        Shape::Int(k) => if t.0 == Token::Integer && integer_literal(x) is Some && k.min()
            <= integer_literal(x)->0 <= k.max() {
            Some((ValueView::Int(integer_literal(x)->0), t.2))
        } else {
            None
        },
        Shape::Float => if t.0 == Token::Float {
            Some((ValueView::Float(x), t.2))
        } else {
            None
        },
        Shape::Char => if is_char_token(t.0) && char_value(t.0, x) is Value {
            Some((ValueView::Char(char_value(t.0, x)->Value_0), t.2))
        } else {
            None
        },
        Shape::Str => if t.0 == Token::Text && lex_at(s, t.2).0 != Token::Text {
            Some((ValueView::Str(strip(x)), t.2))
        } else {
            None
        },
        Shape::String => if t.0 == Token::Text {
            Some((ValueView::Str(text_run(s, p).0), text_run(s, p).1))
        } else {
            None
        },
        Shape::List(_) => if t.0 == Token::Identifier {
            match run_items(s, p, sh, x) {
                Some((ws, e)) => Some((ValueView::List(ws), e)),
                None => None,
            }
        } else if t.0 == Token::BracketOpen {
            match prim_items(s, t.2, sh) {
                Some((ws, q)) => if lex_at(s, q).0 == Token::BracketClose {
                    Some((ValueView::List(ws), lex_at(s, q).2))
                } else {
                    None
                },
                None => None,
            }
        } else {
            None
        },
        Shape::Record { block_type, fields } => {
            let h = header(s, t.2);
            if declares_name_field(fields@) && t.0 == Token::Identifier && x == block_type@ && h.0 {
                match rec_fields(s, h.2, sh) {
                    Some((ws, e)) => Some(
                        (ValueView::Record(seq![(name_field(), ValueView::Str(h.1))] + ws), e),
                    ),
                    None => None,
                }
            } else {
                None
            }
        },
    }
}

/// The blocks of a run of blocks named `name` from position `p` on, for a
/// list shape `sh`, and the position after the run.
pub open spec fn run_items(s: Seq<char>, p: int, sh: Shape, name: Seq<char>) -> Option<
    (Seq<ValueView>, int),
>
    decreases sh, 0nat, s.len() - p,
{
    let t = lex_at(s, p);
    match sh {
        Shape::List(e) => if t.0 == Token::Identifier && s.subrange(t.1, t.2) == name {
            match decoded(s, p, *e) {
                Some((w, q)) => if p < q <= s.len() {
                    prepend(seq![w], run_items(s, q, sh, name))
                } else {
                    None
                },
                None => None,
            }
        } else if t.0 == Token::Identifier || t.0 == Token::BraceClose {
            Some((Seq::empty(), p))
        } else {
            None
        },
        _ => None,
    }
}

/// The elements of a bracketed list from position `p` on (after its `[`),
/// for a list shape `sh`, and the position of its `]`.
pub open spec fn prim_items(s: Seq<char>, p: int, sh: Shape) -> Option<(Seq<ValueView>, int)>
    decreases sh, 0nat, s.len() - p,
{
    let t = lex_at(s, p);
    match sh {
        Shape::List(e) => if is_element_token(t.0) {
            match decoded(s, p, *e) {
                Some((w, q)) => {
                    let u = lex_at(s, q);
                    if u.0 == Token::Comma && p < u.2 <= s.len() {
                        prepend(seq![w], prim_items(s, u.2, sh))
                    } else if u.0 == Token::BracketClose {
                        Some((seq![w], q))
                    } else {
                        None
                    }
                },
                None => None,
            }
        } else if t.0 == Token::BracketClose {
            Some((Seq::empty(), p))
        } else {
            None
        },
        _ => None,
    }
}

/// The fields of a block after its instance name, from position `p` on, for
/// a record shape `sh`, and the position after the block.
pub open spec fn rec_fields(s: Seq<char>, p: int, sh: Shape) -> Option<
    (Seq<(Seq<char>, ValueView)>, int),
>
    decreases sh, 0nat, s.len() - p,
{
    let t = lex_at(s, p);
    let key = s.subrange(t.1, t.2);
    let n = lex_at(s, t.2);
    match sh {
        Shape::Record { fields, .. } => if t.0 == Token::BraceClose {
            Some((Seq::empty(), t.2))
        } else if t.0 != Token::Identifier {
            None
        } else if !follows_key(n.0) {
            Some((Seq::empty(), p))
        } else {
            let i = field_index(fields@, key);
            if 0 <= i < fields.len() {
                let v = if n.0 == Token::Assign {
                    if is_value_token(lex_at(s, n.2).0) {
                        decoded(s, n.2, fields@[i].1)
                    } else {
                        None
                    }
                } else {
                    decoded(s, p, fields@[i].1)
                };
                match v {
                    Some((w, q)) => if p < q <= s.len() {
                        prepend(seq![(key, w)], rec_fields(s, q, sh))
                    } else {
                        None
                    },
                    None => None,
                }
            } else {
                None
            }
        },
        _ => None,
    }
}

/// The index of the field named `k` in `fields`, if there is one.
fn find_field(fields: &Vec<(String, Shape)>, k: &String) -> (r: Option<usize>)
    ensures
        r matches Some(i) ==> i < fields.len() && fields@[i as int].0@ == k@ && i == field_index(
            fields@,
            k@,
        ),
        r is None ==> forall|i: int| 0 <= i < fields.len() ==> fields@[i].0@ != k@,
        r is None ==> field_index(fields@, k@) == -1,
{
    let mut i: usize = 0;
    while i < fields.len()
        invariant
            i <= fields.len(),
            forall|j: int| 0 <= j < i ==> fields@[j].0@ != k@,
        decreases fields.len() - i,
    {
        if fields[i].0 == *k {
            proof {
                let fs = fields@;
                assert(fs[i as int].0@ == k@);
                let c = field_index(fs, k@);
                assert(0 <= c < fs.len() && fs[c].0@ == k@ && forall|j: int|
                    0 <= j < c ==> fs[j].0@ != k@);
                if c < i {
                    assert(fs[c].0@ != k@);
                }
                if c > i {
                    assert(fs[i as int].0@ != k@);
                }
            }
            return Some(i);
        }
        i = i + 1;
    }
    None
}

impl Deserializer {
    /// Decodes a value of shape `shape` from the current lexeme on. For a
    /// scalar shape the result is exactly the one `decoded` gives.
    pub fn decode(&mut self, shape: &Shape) -> (r: Result<Value, Error>)
        requires
            old(self).wf(),
        ensures
            final(self).wf(),
            final(self).lexer.source@ == old(self).lexer.source@,
            r matches Ok(v) ==> fits_two_levels(v, *shape),
            r is Ok ==> final(self).lexer.pos > old(self).lexer.pos,
            !(*shape is List) && !(*shape is Record) ==> (r is Ok <==> decoded(
                old(self).lexer.source@,
                old(self).lexer.pos as int,
                *shape,
            ) is Some),
            !(*shape is List) && !(*shape is Record) ==> (r matches Ok(v) ==> shows(
                v,
                value_of(decoded(old(self).lexer.source@, old(self).lexer.pos as int, *shape)),
            ) && final(self).lexer.pos == end_of(
                decoded(old(self).lexer.source@, old(self).lexer.pos as int, *shape),
            )),
            *shape is Bool ==> (r is Ok <==> old(self).lexer.token == Token::Identifier),
            (*shape matches Shape::Int(k) ==> (r is Ok <==> integer_read(
                old(self).lexer,
                k.min(),
                k.max(),
            ) is Some) && (r matches Ok(Value::Int(v)) ==> v == integer_read(
                old(self).lexer,
                k.min(),
                k.max(),
            )->0)),
            *shape is Float ==> (r is Ok <==> old(self).lexer.token == Token::Float) && (r matches Ok(
                Value::Float(t),
            ) ==> t@ == old(self).lexer.text()),
            *shape is Char ==> (r matches Ok(Value::Char(c)) ==> is_char_token(old(self).lexer.token)
                && char_value(old(self).lexer.token, old(self).lexer.text()) == CharOutcome::Value(c)),
            *shape is Str ==> (r matches Ok(Value::Str(t)) ==> old(self).lexer.token == Token::Text
                && t@ == strip(old(self).lexer.text())),
            *shape is String ==> (r is Ok <==> old(self).lexer.token == Token::Text) && (r matches Ok(
                Value::Str(t),
            ) ==> t@ == text_run(old(self).lexer.source@, old(self).lexer.pos as int).0),
            (*shape matches Shape::Record { block_type, fields } ==> record_outcome(
                block_type@,
                fields@,
                *old(self),
                *final(self),
                r,
            )),
            *shape is List && old(self).lexer.token != Token::Identifier && old(self).lexer.token
                != Token::BracketOpen ==> r is Err && unexpected_at(r->Err_0, old(self).lexer, Expected::BracketOrIdentifier)
                && *final(self) == *old(self),
        decreases *shape, 1nat,
    {
        proof {
            self.lexer.lemma_bounds();
        }
        match shape {
            Shape::Bool => match self.deserialize_bool() {
                Ok(b) => Ok(Value::Bool(b)),
                Err(e) => Err(e),
            },
            Shape::Int(k) => {
                let (min, max) = k.bounds();
                match self.deserialize_integer(min, max) {
                    Ok(v) => Ok(Value::Int(v)),
                    Err(e) => Err(e),
                }
            },
            Shape::Float => match self.deserialize_float() {
                Ok(t) => Ok(Value::Float(t)),
                Err(e) => Err(e),
            },
            Shape::Char => match self.deserialize_char() {
                Ok(c) => Ok(Value::Char(c)),
                Err(e) => Err(e),
            },
            Shape::Str => match self.deserialize_str() {
                Ok(t) => Ok(Value::Str(t)),
                Err(e) => Err(e),
            },
            Shape::String => match self.deserialize_string() {
                Ok(t) => Ok(Value::Str(t)),
                Err(e) => Err(e),
            },
            Shape::List(_) => self.decode_seq(shape),
            Shape::Record { .. } => self.decode_record(shape),
        }
    }

    fn decode_seq(&mut self, shape: &Shape) -> (r: Result<Value, Error>)
        requires
            old(self).wf(),
            shape is List,
        ensures
            final(self).wf(),
            final(self).lexer.source@ == old(self).lexer.source@,
            r matches Ok(v) ==> fits_two_levels(v, *shape),
            r is Ok ==> final(self).lexer.pos > old(self).lexer.pos,
            *shape is List && old(self).lexer.token != Token::Identifier && old(self).lexer.token
                != Token::BracketOpen ==> r is Err && unexpected_at(r->Err_0, old(self).lexer, Expected::BracketOrIdentifier)
                && *final(self) == *old(self),
        decreases *shape, 0nat,
    {
        let elem: &Shape = match shape {
            Shape::List(e) => e,
            _ => vstd::pervasive::unreached(),
        };
        let ghost s = self.lexer.source@;
        let ghost p0 = self.lexer.pos;
        proof {
            self.lexer.lemma_bounds();
        }
        let mut items: Vec<Value> = Vec::new();
        match self.deserialize_seq() {
            Err(e) => Err(e),
            Ok(Sequence::Structs(mut access)) => {
                loop
                    invariant
                        self.wf(),
                        self.lexer.source@ == s,
                        s == old(self).lexer.source@,
                        p0 == old(self).lexer.pos,
                        (*shape matches Shape::List(b) && *b == *elem),
                        old(self).lexer.token == Token::Identifier,
                        items.len() > 0 ==> self.lexer.pos > p0,
                        items.len() == 0 ==> self.lexer.pos == p0 && access.block_type is None
                            && self.lexer.token == Token::Identifier,
                        forall|i: int| 0 <= i < items.len() ==> fits_shape(#[trigger] items@[i], *elem),
                    ensures
                        self.wf(),
                        self.lexer.source@ == s,
                        self.lexer.pos > p0,
                        forall|i: int| 0 <= i < items.len() ==> fits_shape(#[trigger] items@[i], *elem),
                    decreases s.len() - self.lexer.pos + (if items.len() == 0 { 1int } else { 0 }),
                {
                    proof {
                        self.lexer.lemma_bounds();
                    }
                    match access.next_element(self) {
                        Err(e) => {
                            return Err(e);
                        },
                        Ok(false) => {
                            break;
                        },
                        Ok(true) => {
                            let v = self.decode(elem);
                            match v {
                                Ok(v) => {
                                    items.push(v);
                                },
                                Err(e) => {
                                    return Err(e);
                                },
                            }
                        },
                    }
                }
                Ok(Value::List(items))
            },
            Ok(Sequence::Primitives(mut access)) => {
                loop
                    invariant
                        self.wf(),
                        self.lexer.source@ == s,
                        s == old(self).lexer.source@,
                        p0 == old(self).lexer.pos,
                        (*shape matches Shape::List(b) && *b == *elem),
                        old(self).lexer.token == Token::BracketOpen,
                        self.lexer.pos > p0,
                        forall|i: int| 0 <= i < items.len() ==> fits_shape(#[trigger] items@[i], *elem),
                    ensures
                        self.wf(),
                        self.lexer.source@ == s,
                        self.lexer.pos > p0,
                        forall|i: int| 0 <= i < items.len() ==> fits_shape(#[trigger] items@[i], *elem),
                    decreases s.len() - self.lexer.pos,
                {
                    proof {
                        self.lexer.lemma_bounds();
                    }
                    match access.next_element(self) {
                        Err(e) => {
                            return Err(e);
                        },
                        Ok(false) => {
                            break;
                        },
                        Ok(true) => {
                            match self.decode(elem) {
                                Ok(v) => {
                                    items.push(v);
                                },
                                Err(e) => {
                                    return Err(e);
                                },
                            }
                            proof {
                                self.lexer.lemma_bounds();
                            }
                            if let Err(e) = access.element_done(self) {
                                return Err(e);
                            }
                        },
                    }
                }
                proof {
                    self.lexer.lemma_bounds();
                }
                match self.end_primitive_seq() {
                    Ok(()) => Ok(Value::List(items)),
                    Err(e) => Err(e),
                }
            },
        }
    }

    fn decode_record(&mut self, shape: &Shape) -> (r: Result<Value, Error>)
        requires
            old(self).wf(),
            shape is Record,
        ensures
            final(self).wf(),
            final(self).lexer.source@ == old(self).lexer.source@,
            r matches Ok(v) ==> fits_two_levels(v, *shape),
            r is Ok ==> final(self).lexer.pos > old(self).lexer.pos,
            (*shape matches Shape::Record { block_type, fields } ==> record_outcome(
                block_type@,
                fields@,
                *old(self),
                *final(self),
                r,
            )),
        decreases *shape, 0nat,
    {
        broadcast use vstd::std_specs::vec::group_vec_axioms;

        let (block_type, fields) = match shape {
            Shape::Record { block_type, fields } => (block_type, fields),
            _ => vstd::pervasive::unreached(),
        };
        let ghost s = self.lexer.source@;
        let ghost p0 = self.lexer.pos;
        let mut names: Vec<&str> = Vec::new();
        let mut i: usize = 0;
        while i < fields.len()
            invariant
                i <= fields.len(),
                names.len() == i,
                forall|j: int| 0 <= j < i ==> (#[trigger] names@[j])@ == fields@[j].0@,
            decreases fields.len() - i,
        {
            names.push(fields[i].0.as_str());
            i = i + 1;
        }
        assert(has_name_field(names@) == declares_name_field(fields@)) by {
            if has_name_field(names@) {
                let j = choose|j: int| 0 <= j < names@.len() && #[trigger] names@[j]@ == name_field();
                assert(fields@[j].0@ == name_field());
            }
            if declares_name_field(fields@) {
                let j = choose|j: int| 0 <= j < fields@.len() && #[trigger] fields@[j].0@ == name_field();
                assert(names@[j]@ == name_field());
            }
        }
        let ghost name0 = header(self.lexer.source@, self.lexer.end as int).1;
        let mut access = match self.deserialize_struct(block_type.as_str(), names.as_slice()) {
            Ok(a) => a,
            Err(e) => {
                return Err(e);
            },
        };
        let mut out: Vec<(String, Value)> = Vec::new();
        let ghost fs = *fields;
        assert(fits_shape(Value::Record { fields: out }, *shape));
        loop
            invariant
                self.wf(),
                self.lexer.source@ == s,
                s == old(self).lexer.source@,
                p0 == old(self).lexer.pos,
                (*shape matches Shape::Record { fields: f, .. } && f == *fields),
                (*shape matches Shape::Record { block_type: b, .. } && b == *block_type),
                self.lexer.pos > p0,
                fs == *fields,
                access.park is None,
                fields_fit(out@, fs@),
                access.instance_name matches Some(n) ==> out.len() == 0 && n@ == name0,
                access.instance_name is None ==> starts_with_name(out@, name0),
                name0 == header(old(self).lexer.source@, old(self).lexer.end as int).1,
                declares_name_field(fields@),
                old(self).lexer.token == Token::Identifier,
                old(self).lexer.text() == block_type@,
            ensures
                self.wf(),
                self.lexer.source@ == s,
                self.lexer.pos > p0,
                fields_fit(out@, fs@),
                starts_with_name(out@, name0),
            decreases s.len() - self.lexer.pos + (if access.instance_name is Some { 1int } else { 0 }),
        {
            proof {
                self.lexer.lemma_bounds();
            }
            let key = match access.next_key(self) {
                Err(e) => {
                    return Err(e);
                },
                Ok(None) => {
                    break;
                },
                Ok(Some(k)) => k,
            };
            proof {
                self.lexer.lemma_bounds();
            }
            let idx = match find_field(fields, &key) {
                Some(i) => i,
                None => {
                    return Err(Error::UnknownField { name: key });
                },
            };
            let v = match access.next_value(self) {
                Err(e) => {
                    return Err(e);
                },
                Ok(FieldValue::InstanceName(n)) => {
                    proof {
                        assert(fs@[idx as int].0@ == crate::de::name_field());
                    }
                    Value::Str(n)
                },
                Ok(_) => {
                    proof {
                        self.lexer.lemma_bounds();
                    }
                    match self.decode(&fields[idx].1) {
                        Ok(v) => v,
                        Err(e) => {
                            return Err(e);
                        },
                    }
                },
            };
            let ghost before = out@;
            out.push((key, v));
            assert(out@[0] == (if before.len() == 0 {
                out@[0]
            } else {
                before[0]
            }));
            proof {
                assert(field_fits(out@[out.len() - 1], fs@[idx as int]));
                assert forall|j: int| 0 <= j < out@.len() implies #[trigger] field_declared(
                    out@[j],
                    fs@,
                ) by {
                    if j < before.len() {
                        assert(out@[j] == before[j]);
                    } else {
                        assert(field_fits(out@[j], fs@[idx as int]));
                    }
                }
            }
        }
        Ok(Value::Record { fields: out })
    }
}

} // verus!
