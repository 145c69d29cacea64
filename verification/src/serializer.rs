//! The serializer: renders a mapping from names to values back to the
//! textual notation — one line per declaration, nested class bodies indented
//! one level deeper, a single trailing newline.
//!
//! The spec functions in this module define the rendering over value models;
//! `Serializer::serialize_map` is proved to return exactly their result.

use vstd::prelude::*;

use crate::errors::ParseError;
use crate::numbers::int_literal;
use crate::value::{
    dyn_ok, dyn_ok_entries, dyn_payload_ok, entries_model, lemma_dyn_ok_entries_index,
    lemma_entries_model_index, lemma_entries_model_len, vmodel, ValModel, Value,
};

verus! {

/// A run of spaces.
pub open spec fn spaces(n: int) -> Seq<char> {
    Seq::new(if n < 0 { 0 } else { n as nat }, |i: int| ' ')
}

/// Parts joined with a separator; no separator before the first part.
pub open spec fn join_with(parts: Seq<Seq<char>>, sep: Seq<char>) -> Seq<char>
    decreases parts.len(),
{
    if parts.len() == 0 {
        Seq::empty()
    } else if parts.len() == 1 {
        parts[0]
    } else {
        parts[0] + sep + join_with(parts.drop_first(), sep)
    }
}

proof fn lemma_join_with_push(parts: Seq<Seq<char>>, x: Seq<char>, sep: Seq<char>)
    ensures
        join_with(parts.push(x), sep) == if parts.len() == 0 {
            x
        } else {
            join_with(parts, sep) + sep + x
        },
    decreases parts.len(),
{
    if parts.len() == 0 {
        assert(parts.push(x)[0] == x);
        assert(parts.push(x).len() == 1);
    } else {
        let p = parts.push(x);
        assert(p.drop_first() =~= parts.drop_first().push(x));
        lemma_join_with_push(parts.drop_first(), x, sep);
        if parts.len() == 1 {
            assert(parts.drop_first().len() == 0);
            assert(join_with(p, sep) == p[0] + sep + join_with(p.drop_first(), sep));
            assert(p[0] == parts[0]);
        } else {
            assert(p[0] == parts[0]);
            assert(join_with(parts, sep) + sep + x =~= parts[0] + sep + (join_with(
                parts.drop_first(),
                sep,
            ) + sep + x));
        }
    }
}

/// A character of a quoted string, with backslash and quote escaped.
pub open spec fn esc_c(c: char) -> Seq<char> {
    if c == '\\' || c == '"' {
        seq!['\\', c]
    } else {
        seq![c]
    }
}

/// A quoted string's body: backslash and quote escaped, nothing else.
pub open spec fn esc_str(s: Seq<char>) -> Seq<char>
    decreases s.len(),
{
    if s.len() == 0 {
        Seq::empty()
    } else {
        esc_c(s[0]) + esc_str(s.drop_first())
    }
}

proof fn lemma_esc_str_push(s: Seq<char>, c: char)
    ensures
        esc_str(s.push(c)) == esc_str(s) + esc_c(c),
    decreases s.len(),
{
    if s.len() == 0 {
        assert(s.push(c)[0] == c);
        assert(s.push(c).drop_first() =~= Seq::<char>::empty());
        assert(esc_str(Seq::<char>::empty()) =~= Seq::<char>::empty());
        assert(esc_str(s.push(c)) =~= esc_c(c));
        assert(esc_str(s) + esc_c(c) =~= esc_c(c));
    } else {
        assert(s.push(c)[0] == s[0]);
        assert(s.push(c).drop_first() =~= s.drop_first().push(c));
        lemma_esc_str_push(s.drop_first(), c);
        assert(esc_c(s[0]) + (esc_str(s.drop_first()) + esc_c(c)) =~= (esc_c(s[0]) + esc_str(
            s.drop_first(),
        )) + esc_c(c));
    }
}

/// The spelled-out boolean literal.
pub open spec fn bool_lit(b: bool) -> Seq<char> {
    if b {
        "true"@
    } else {
        "false"@
    }
}

/// A multiline block: the body verbatim between single quotes on its own
/// line, indented four spaces past the enclosing indent.
pub open spec fn ml_block(s: Seq<char>, ind: int, level: int) -> Seq<char> {
    "ml {\n"@ + spaces(ind * level) + "    '"@ + s + "'\n"@ + spaces(ind * level) + "}"@
}

/// The rendering of a value wrapped in `dynamic`: scalars under the
/// `dynamic` tag, multiline text (and text holding a newline) as a plain
/// `ml` block, anything else refused.
pub open spec fn ser_dynamic(v: ValModel, ind: int, level: int) -> Result<Seq<char>, Seq<char>> {
    match v {
        ValModel::Bool(b) => Ok("dynamic { "@ + bool_lit(b) + " }"@),
        ValModel::Num(n) => Ok("dynamic { "@ + int_literal(n) + " }"@),
        ValModel::Fl(t) => Ok("dynamic { "@ + t + " }"@),
        ValModel::Str(s) => if s.contains('\n') {
            Ok(ml_block(s, ind, level))
        } else {
            Ok("dynamic { \""@ + esc_str(s) + "\" }"@)
        },
        ValModel::Ml(s) => Ok(ml_block(s, ind, level)),
        _ => Err("Unsupported value type for dynamic"@),
    }
}

/// The rendering of a value at an indent level.
pub open spec fn ser_value(v: ValModel, ind: int, level: int) -> Seq<char>
    decreases v, 0int,
{
    match v {
        ValModel::Bool(b) => "bool { "@ + bool_lit(b) + " }"@,
        ValModel::Num(n) => "num { "@ + int_literal(n) + " }"@,
        ValModel::Fl(t) => "fl { "@ + t + " }"@,
        ValModel::Str(s) => if s.contains('\n') {
            ml_block(s, ind, level)
        } else {
            "str { \""@ + esc_str(s) + "\" }"@
        },
        ValModel::Ml(s) => ml_block(s, ind, level),
        ValModel::Class(es) => "class {\n"@ + ser_level(es, ind, level + 1) + "\n"@ + spaces(
            ind * level,
        ) + "}"@,
        ValModel::ListBool(bs) => "list(bool) { "@ + join_with(
            bs.map_values(|b: bool| bool_lit(b)),
            ", "@,
        ) + " }"@,
        ValModel::ListNum(ns) => "list(num) { "@ + join_with(
            ns.map_values(|n: int| int_literal(n)),
            ", "@,
        ) + " }"@,
        ValModel::ListFl(ds) => "list(fl) { "@ + join_with(ds, ", "@) + " }"@,
        ValModel::ListStr(ss) => "list(str) { "@ + join_with(
            ss.map_values(|s: Seq<char>| "\""@ + esc_str(s) + "\""@),
            ", "@,
        ) + " }"@,
        ValModel::Dynamic(b) => match ser_dynamic(*b, ind, level) {
            Ok(t) => t,
            Err(_) => Seq::empty(),
        },
    }
}

/// One declaration line, without its newline.
pub open spec fn ser_entry(name: Seq<char>, v: ValModel, ind: int, level: int) -> Seq<char>
    decreases v, 1int,
{
    spaces(ind * level) + name + " :: "@ + ser_value(v, ind, level)
}

/// The declaration lines of a scope, joined with newlines.
pub open spec fn ser_level(es: Seq<(Seq<char>, ValModel)>, ind: int, level: int) -> Seq<char>
    decreases es, 2int,
{
    if es.len() == 0 {
        Seq::empty()
    } else if es.len() == 1 {
        ser_entry(es[0].0, es[0].1, ind, level)
    } else {
        ser_entry(es[0].0, es[0].1, ind, level) + "\n"@ + ser_level(es.drop_first(), ind, level)
    }
}

proof fn lemma_ser_level_push(
    es: Seq<(Seq<char>, ValModel)>,
    e: (Seq<char>, ValModel),
    ind: int,
    level: int,
)
    ensures
        ser_level(es.push(e), ind, level) == if es.len() == 0 {
            ser_entry(e.0, e.1, ind, level)
        } else {
            ser_level(es, ind, level) + "\n"@ + ser_entry(e.0, e.1, ind, level)
        },
    decreases es.len(),
{
    if es.len() == 0 {
        assert(es.push(e)[0] == e);
        assert(es.push(e).len() == 1);
    } else {
        let p = es.push(e);
        assert(p.drop_first() =~= es.drop_first().push(e));
        assert(p[0] == es[0]);
        lemma_ser_level_push(es.drop_first(), e, ind, level);
        if es.len() == 1 {
            assert(es.drop_first().len() == 0);
        } else {
            assert(ser_level(es, ind, level) + "\n"@ + ser_entry(e.0, e.1, ind, level)
                =~= ser_entry(es[0].0, es[0].1, ind, level) + "\n"@ + (ser_level(
                es.drop_first(),
                ind,
                level,
            ) + "\n"@ + ser_entry(e.0, e.1, ind, level)));
        }
    }
}

/// The rendering of a whole mapping: its lines and a trailing newline.
pub open spec fn ser_map(es: Seq<(Seq<char>, ValModel)>, ind: int) -> Seq<char> {
    ser_level(es, ind, 0) + "\n"@
}

/// How deep the classes nest below a value.
pub open spec fn vdepth(v: ValModel) -> nat
    decreases v,
{
    match v {
        ValModel::Class(es) => 1 + edepth(es),
        ValModel::Dynamic(b) => vdepth(*b),
        _ => 0,
    }
}

/// How deep the classes nest below a scope's entries.
pub open spec fn edepth(es: Seq<(Seq<char>, ValModel)>) -> nat
    decreases es,
{
    if es.len() == 0 {
        0
    } else if vdepth(es[0].1) >= edepth(es.drop_first()) {
        vdepth(es[0].1)
    } else {
        edepth(es.drop_first())
    }
}

proof fn lemma_edepth_index(es: Seq<(Seq<char>, ValModel)>, i: int)
    requires
        0 <= i < es.len(),
    ensures
        vdepth(es[i].1) <= edepth(es),
    decreases es.len(),
{
    if i > 0 {
        lemma_edepth_index(es.drop_first(), i - 1);
    }
}

pub struct Serializer {
    indent: usize,
}

impl View for Serializer {
    type V = int;

    closed spec fn view(&self) -> int {
        self.indent as int
    }
}

impl Serializer {
    /// An indent width of zero defaults to four spaces.
    pub fn new(indent: usize) -> (s: Self)
        ensures
            s@ == if indent == 0 {
                4int
            } else {
                indent as int
            },
            s@ >= 1,
    {
        Self { indent: if indent == 0 { 4 } else { indent } }
    }

    /// Appends the indent for a nesting level.
    fn push_indent(&self, out: &mut String, level: usize)
        ensures
            final(out)@ == old(out)@ + spaces(self@ * level),
    {
        let mut k: usize = 0;
        while k < level
            invariant
                k <= level,
                out@ == old(out)@ + spaces(self@ * k),
            decreases level - k,
        {
            let mut j: usize = 0;
            while j < self.indent
                invariant
                    j <= self@,
                    out@ == old(out)@ + spaces(self@ * k + j),
                decreases self@ - j,
            {
                out.append(" ");
                j = j + 1;
                proof {
                    reveal_strlit(" ");
                    assert(out@ =~= old(out)@ + spaces(self@ * k + j));
                }
            }
            k = k + 1;
            proof {
                assert(self@ * k == self@ * (k - 1) + self@) by (nonlinear_arith);
                assert(out@ =~= old(out)@ + spaces(self@ * k));
            }
        }
    }

    /// Appends a string body with backslash and quote escaped.
    fn push_escaped(&self, out: &mut String, s: &str)
        ensures
            final(out)@ == old(out)@ + esc_str(s@),
    {
        let n = s.unicode_len();
        let mut i: usize = 0;
        proof {
            assert(esc_str(s@.take(0)) =~= Seq::<char>::empty());
            assert(out@ =~= old(out)@ + esc_str(s@.take(0)));
        }
        while i < n
            invariant
                i <= n,
                n == s@.len(),
                out@ == old(out)@ + esc_str(s@.take(i as int)),
            decreases n - i,
        {
            let c = s.get_char(i);
            if c == '\\' {
                out.append("\\\\");
            } else if c == '"' {
                out.append("\\\"");
            } else {
                let mut one: Vec<char> = Vec::new();
                one.push(c);
                out.append(crate::chars::chars_to_string(&one).as_str());
            }
            i = i + 1;
            proof {
                reveal_strlit("\\\\");
                reveal_strlit("\\\"");
                assert(s@.take(i as int) =~= s@.take(i - 1).push(c));
                lemma_esc_str_push(s@.take(i - 1), c);
                assert(out@ =~= old(out)@ + esc_str(s@.take(i as int)));
            }
        }
        proof {
            assert(s@.take(n as int) =~= s@);
        }
    }

    /// Appends a multiline block.
    fn push_ml_block(&self, out: &mut String, s: &str, level: usize)
        ensures
            final(out)@ == old(out)@ + ml_block(s@, self@, level as int),
    {
        out.append("ml {\n");
        self.push_indent(out, level);
        out.append("    '");
        out.append(s);
        out.append("'\n");
        self.push_indent(out, level);
        out.append("}");
        proof {
            assert(out@ =~= old(out)@ + ml_block(s@, self@, level as int));
        }
    }

    /// Renders one value. Every `dynamic` wrapper must hold a scalar, as the
    /// parser guarantees; the nesting depth is bounded by the machine.
    fn serialize_value(&self, v: &Value, level: usize) -> (out: String)
        requires
            dyn_ok(vmodel(*v)),
            level + vdepth(vmodel(*v)) <= usize::MAX,
        ensures
            out@ == ser_value(vmodel(*v), self@, level as int),
        decreases *v,
    {
        let mut out = String::new();
        match v {
            Value::Bool(b) => {
                if *b {
                    out.append("bool { true }");
                } else {
                    out.append("bool { false }");
                }
                proof {
                    reveal_strlit("bool { true }");
                    reveal_strlit("bool { false }");
                    reveal_strlit("bool { ");
                    reveal_strlit("true");
                    reveal_strlit("false");
                    reveal_strlit(" }");
                    assert(out@ =~= ser_value(vmodel(*v), self@, level as int));
                }
            },
            Value::Num(n) => {
                out.append("num { ");
                let digits = crate::numbers::i64_to_chars(*n);
                out.append(crate::chars::chars_to_string(&digits).as_str());
                out.append(" }");
                proof {
                    assert(out@ =~= ser_value(vmodel(*v), self@, level as int));
                }
            },
            Value::Fl(d) => {
                out.append("fl { ");
                out.append(d.literal());
                out.append(" }");
                proof {
                    assert(out@ =~= ser_value(vmodel(*v), self@, level as int));
                }
            },
            Value::Str(s) => {
                if crate::chars::contains_char(s.as_str(), '\n') {
                    self.push_ml_block(&mut out, s.as_str(), level);
                    proof {
                        assert(out@ =~= ser_value(vmodel(*v), self@, level as int));
                    }
                } else {
                    out.append("str { \"");
                    self.push_escaped(&mut out, s.as_str());
                    out.append("\" }");
                    proof {
                        assert(out@ =~= ser_value(vmodel(*v), self@, level as int));
                    }
                }
            },
            Value::Ml(s) => {
                self.push_ml_block(&mut out, s.as_str(), level);
                proof {
                    assert(out@ =~= ser_value(vmodel(*v), self@, level as int));
                }
            },
            Value::Class(m) => {
                out.append("class {\n");
                let body = self.serialize_level(m, level + 1);
                out.append(body.as_str());
                out.append("\n");
                self.push_indent(&mut out, level);
                out.append("}");
                proof {
                    assert(out@ =~= ser_value(vmodel(*v), self@, level as int));
                }
            },
            Value::ListBool(vs) => {
                out.append("list(bool) { ");
                let ghost models = vs@.map_values(|b: bool| bool_lit(b));
                let mut i: usize = 0;
                proof {
                    assert(models.take(0) =~= Seq::<Seq<char>>::empty());
                    assert(out@ =~= "list(bool) { "@ + join_with(models.take(0), ", "@));
                }
                while i < vs.len()
                    invariant
                        i <= vs@.len(),
                        models == vs@.map_values(|b: bool| bool_lit(b)),
                        out@ == "list(bool) { "@ + join_with(models.take(i as int), ", "@),
                    decreases vs@.len() - i,
                {
                    if i > 0 {
                        out.append(", ");
                    }
                    if vs[i] {
                        out.append("true");
                    } else {
                        out.append("false");
                    }
                    i = i + 1;
                    proof {
                        assert(models.take(i as int) =~= models.take(i - 1).push(
                            bool_lit(vs@[i - 1]),
                        ));
                        lemma_join_with_push(models.take(i - 1), bool_lit(vs@[i - 1]), ", "@);
                        assert(out@ =~= "list(bool) { "@ + join_with(models.take(i as int), ", "@));
                    }
                }
                out.append(" }");
                proof {
                    assert(models.take(vs@.len() as int) =~= models);
                    assert(out@ =~= ser_value(vmodel(*v), self@, level as int));
                }
            },
            Value::ListNum(vs) => {
                out.append("list(num) { ");
                let ghost models = vs@.map_values(|x: i64| x as int).map_values(
                    |n: int| int_literal(n),
                );
                let mut i: usize = 0;
                proof {
                    assert(models.take(0) =~= Seq::<Seq<char>>::empty());
                    assert(out@ =~= "list(num) { "@ + join_with(models.take(0), ", "@));
                }
                while i < vs.len()
                    invariant
                        i <= vs@.len(),
                        models == vs@.map_values(|x: i64| x as int).map_values(
                            |n: int| int_literal(n),
                        ),
                        out@ == "list(num) { "@ + join_with(models.take(i as int), ", "@),
                    decreases vs@.len() - i,
                {
                    if i > 0 {
                        out.append(", ");
                    }
                    let digits = crate::numbers::i64_to_chars(vs[i]);
                    out.append(crate::chars::chars_to_string(&digits).as_str());
                    i = i + 1;
                    proof {
                        assert(models.take(i as int) =~= models.take(i - 1).push(
                            int_literal(vs@[i - 1] as int),
                        ));
                        lemma_join_with_push(
                            models.take(i - 1),
                            int_literal(vs@[i - 1] as int),
                            ", "@,
                        );
                        assert(out@ =~= "list(num) { "@ + join_with(models.take(i as int), ", "@));
                    }
                }
                out.append(" }");
                proof {
                    assert(models.take(vs@.len() as int) =~= models);
                    assert(out@ =~= ser_value(vmodel(*v), self@, level as int));
                }
            },
            Value::ListFl(vs) => {
                out.append("list(fl) { ");
                let ghost models = vs@.map_values(|d: crate::value::Decimal| d@);
                let mut i: usize = 0;
                proof {
                    assert(models.take(0) =~= Seq::<Seq<char>>::empty());
                    assert(out@ =~= "list(fl) { "@ + join_with(models.take(0), ", "@));
                }
                while i < vs.len()
                    invariant
                        i <= vs@.len(),
                        models == vs@.map_values(|d: crate::value::Decimal| d@),
                        out@ == "list(fl) { "@ + join_with(models.take(i as int), ", "@),
                    decreases vs@.len() - i,
                {
                    if i > 0 {
                        out.append(", ");
                    }
                    out.append(vs[i].literal());
                    i = i + 1;
                    proof {
                        assert(models.take(i as int) =~= models.take(i - 1).push(vs@[i - 1]@));
                        lemma_join_with_push(models.take(i - 1), vs@[i - 1]@, ", "@);
                        assert(out@ =~= "list(fl) { "@ + join_with(models.take(i as int), ", "@));
                    }
                }
                out.append(" }");
                proof {
                    assert(models.take(vs@.len() as int) =~= models);
                    assert(out@ =~= ser_value(vmodel(*v), self@, level as int));
                }
            },
            Value::ListStr(vs) => {
                out.append("list(str) { ");
                let ghost models = vs@.map_values(|s: String| s@).map_values(
                    |s: Seq<char>| "\""@ + esc_str(s) + "\""@,
                );
                let mut i: usize = 0;
                proof {
                    assert(models.take(0) =~= Seq::<Seq<char>>::empty());
                    assert(out@ =~= "list(str) { "@ + join_with(models.take(0), ", "@));
                }
                while i < vs.len()
                    invariant
                        i <= vs@.len(),
                        models == vs@.map_values(|s: String| s@).map_values(
                            |s: Seq<char>| "\""@ + esc_str(s) + "\""@,
                        ),
                        out@ == "list(str) { "@ + join_with(models.take(i as int), ", "@),
                    decreases vs@.len() - i,
                {
                    if i > 0 {
                        out.append(", ");
                    }
                    out.append("\"");
                    self.push_escaped(&mut out, vs[i].as_str());
                    out.append("\"");
                    i = i + 1;
                    proof {
                        assert(models.take(i as int) =~= models.take(i - 1).push(
                            "\""@ + esc_str(vs@[i - 1]@) + "\""@,
                        ));
                        lemma_join_with_push(
                            models.take(i - 1),
                            "\""@ + esc_str(vs@[i - 1]@) + "\""@,
                            ", "@,
                        );
                        assert(out@ =~= "list(str) { "@ + join_with(models.take(i as int), ", "@));
                    }
                }
                out.append(" }");
                proof {
                    assert(models.take(vs@.len() as int) =~= models);
                    assert(out@ =~= ser_value(vmodel(*v), self@, level as int));
                }
            },
            Value::Dynamic(inner) => {
                match self.serialize_dynamic(inner, level) {
                    Ok(s) => {
                        out = s;
                    },
                    Err(_) => {
                        proof {
                            assert(false);
                        }
                    },
                }
            },
        }
        out
    }

    /// Renders the declaration lines of one scope at an indent level.
    fn serialize_level(&self, data: &Vec<(String, Value)>, level: usize) -> (out: String)
        requires
            dyn_ok_entries(entries_model(data@)),
            level + edepth(entries_model(data@)) <= usize::MAX,
        ensures
            out@ == ser_level(entries_model(data@), self@, level as int),
        decreases *data,
    {
        let ghost es = entries_model(data@);
        proof {
            lemma_entries_model_len(data@);
        }
        let mut out = String::new();
        let mut i: usize = 0;
        proof {
            assert(ser_level(es.take(0), self@, level as int) =~= Seq::<char>::empty());
        }
        while i < data.len()
            invariant
                i <= data@.len(),
                es == entries_model(data@),
                es.len() == data@.len(),
                dyn_ok_entries(es),
                level + edepth(es) <= usize::MAX,
                out@ == ser_level(es.take(i as int), self@, level as int),
            decreases data@.len() - i,
        {
            if i > 0 {
                out.append("\n");
            }
            proof {
                lemma_entries_model_index(data@, i as int);
                lemma_dyn_ok_entries_index(es, i as int);
                lemma_edepth_index(es, i as int);
            }
            self.push_indent(&mut out, level);
            out.append(data[i].0.as_str());
            out.append(" :: ");
            let vs = self.serialize_value(&data[i].1, level);
            out.append(vs.as_str());
            i = i + 1;
            proof {
                let e = es[i - 1];
                assert(es.take(i as int) =~= es.take(i - 1).push(e));
                lemma_ser_level_push(es.take(i - 1), e, self@, level as int);
                assert(out@ =~= ser_level(es.take(i as int), self@, level as int));
            }
        }
        proof {
            assert(es.take(data@.len() as int) =~= es);
        }
        out
    }

    /// Renders a whole mapping: one line per declaration and a trailing
    /// newline.
    pub fn serialize_map(&self, data: &Vec<(String, Value)>) -> (out: String)
        requires
            dyn_ok_entries(entries_model(data@)),
            edepth(entries_model(data@)) <= usize::MAX,
        ensures
            out@ == ser_map(entries_model(data@), self@),
    {
        let mut out = self.serialize_level(data, 0);
        out.append("\n");
        out
    }

    /// Renders a value declared under the generic `dynamic` tag; a class or
    /// a list cannot stand there.
    pub fn serialize_dynamic(&self, v: &Value, level: usize) -> (r: Result<String, ParseError>)
        ensures
            match ser_dynamic(vmodel(*v), self@, level as int) {
                Ok(t) => r matches Ok(s) && s@ == t,
                Err(m) => r matches Err(e) && e@ == m,
            },
    {
        let mut out = String::new();
        match v {
            Value::Bool(b) => {
                if *b {
                    out.append("dynamic { true }");
                } else {
                    out.append("dynamic { false }");
                }
                proof {
                    reveal_strlit("dynamic { true }");
                    reveal_strlit("dynamic { false }");
                    reveal_strlit("dynamic { ");
                    reveal_strlit("true");
                    reveal_strlit("false");
                    reveal_strlit(" }");
                    assert(out@ =~= "dynamic { "@ + bool_lit(vmodel(*v)->Bool_0) + " }"@);
                }
                Ok(out)
            },
            Value::Num(n) => {
                out.append("dynamic { ");
                let digits = crate::numbers::i64_to_chars(*n);
                out.append(crate::chars::chars_to_string(&digits).as_str());
                out.append(" }");
                proof {
                    assert(out@ =~= "dynamic { "@ + int_literal(*n as int) + " }"@);
                }
                Ok(out)
            },
            Value::Fl(d) => {
                out.append("dynamic { ");
                out.append(d.literal());
                out.append(" }");
                proof {
                    assert(out@ =~= "dynamic { "@ + d@ + " }"@);
                }
                Ok(out)
            },
            Value::Str(s) => {
                if crate::chars::contains_char(s.as_str(), '\n') {
                    self.push_ml_block(&mut out, s.as_str(), level);
                } else {
                    out.append("dynamic { \"");
                    self.push_escaped(&mut out, s.as_str());
                    out.append("\" }");
                    proof {
                        assert(out@ =~= "dynamic { \""@ + esc_str(s@) + "\" }"@);
                    }
                }
                Ok(out)
            },
            Value::Ml(s) => {
                self.push_ml_block(&mut out, s.as_str(), level);
                Ok(out)
            },
            _ => Err(
                crate::errors::ParseError::new(
                    String::from_str("Unsupported value type for dynamic"),
                ),
            ),
        }
    }
}

} // verus!
