//! Renders a query document as text, either indented or minified.
use vstd::prelude::*;
use crate::query::{Document, Definition, OperationDefinition, SelectionSet, Selection, Field, InlineFragment, Argument, Value};

verus! {

/// How a document is rendered.
pub struct Style {
    /// Spaces added per nesting level in indented output.
    pub indent: usize,
    /// Render on one line with single spaces between selections.
    pub minified: bool,
}

impl Default for Style {
    fn default() -> (r: Style)
        ensures
            r.indent == 2 && !r.minified,
    {
        Style { indent: 2, minified: false }
    }
}

/// `n` spaces.
pub open spec fn spaces(n: nat) -> Seq<char>
    decreases n,
{
    if n == 0 { Seq::empty() } else { spaces((n - 1) as nat) + " "@ }
}

/// A value as written: `$name`, `true`, `false` or the enum name.
pub open spec fn value_text(v: Value) -> Seq<char> {
    match v {
        Value::Variable(n) => "$"@ + n@,
        Value::Boolean(b) => if b { "true"@ } else { "false"@ },
        Value::Enum(e) => e@,
    }
}

/// Arguments as `name:value`, separated by single spaces.
pub open spec fn args_body(args: Seq<Argument>) -> Seq<char>
    decreases args.len(),
{
    if args.len() == 0 {
        Seq::empty()
    } else if args.len() == 1 {
        args[0].name@ + ":"@ + value_text(args[0].value)
    } else {
        args_body(args.drop_last()) + " "@ + args.last().name@ + ":"@ + value_text(args.last().value)
    }
}

/// The arguments of a field in parentheses; nothing when it has none.
pub open spec fn args_text(args: Seq<Argument>) -> Seq<char> {
    if args.len() == 0 { Seq::empty() } else { "("@ + args_body(args) + ")"@ }
}

/// The head of a field: `alias:name` or `name`, then its arguments.
pub open spec fn field_head(f: Field) -> Seq<char> {
    let named = match f.alias {
        Some(a) => a@ + ":"@ + f.name@,
        None => f.name@,
    };
    named + args_text(f.arguments@)
}

fn write_value(out: &mut String, v: &Value)
    ensures
        final(out)@ == old(out)@ + value_text(*v),
{
    match v {
        Value::Variable(n) => {
            out.append("$");
            out.append(n.as_str());
        },
        Value::Boolean(b) => {
            if *b {
                out.append("true");
            } else {
                out.append("false");
            }
        },
        Value::Enum(e) => {
            out.append(e.as_str());
        },
    }
}

/// Writes the arguments of a field as `args_text` gives them.
pub(crate) fn write_args(out: &mut String, args: &Vec<Argument>)
    ensures
        final(out)@ == old(out)@ + args_text(args@),
{
    if args.len() == 0 {
        return;
    }
    out.append("(");
    let ghost start = out@;
    let mut i: usize = 0;
    while i < args.len()
        invariant
            0 <= i <= args@.len(),
            out@ == start + args_body(args@.subrange(0, i as int)),
        decreases args@.len() - i,
    {
        let ghost before = out@;
        let ghost next = args@.subrange(0, i as int + 1);
        assert(next.drop_last() =~= args@.subrange(0, i as int));
        if i > 0 {
            out.append(" ");
        }
        out.append(args[i].name.as_str());
        out.append(":");
        write_value(out, &args[i].value);
        proof {
            if i == 0 {
                assert(out@ =~= before + args@[0].name@ + ":"@ + value_text(args@[0].value));
            } else {
                assert(out@ =~= before + " "@ + args@[i as int].name@ + ":"@ + value_text(args@[i as int].value));
            }
            assert(out@ =~= start + args_body(next));
        }
        i = i + 1;
    }
    assert(args@.subrange(0, i as int) =~= args@);
    out.append(")");
}

/// The head of an inline fragment: `...on T` or `...`.
pub open spec fn fragment_head(fr: InlineFragment) -> Seq<char> {
    match fr.type_condition {
        Some(t) => "...on "@ + t@,
        None => "..."@,
    }
}

/// A selection set in minified form: `{a b{c}}`.
pub open spec fn set_min(set: SelectionSet) -> Seq<char>
    decreases set, 2int,
{
    "{"@ + items_min(set.items@) + "}"@
}

/// The items of a set in minified form, separated by single spaces.
pub open spec fn items_min(items: Seq<Selection>) -> Seq<char>
    decreases items, 1int,
{
    if items.len() == 0 {
        Seq::empty()
    } else if items.len() == 1 {
        sel_min(items[0])
    } else {
        items_min(items.subrange(0, items.len() - 1)) + " "@ + sel_min(items[items.len() - 1])
    }
}

/// One selection in minified form.
pub open spec fn sel_min(sel: Selection) -> Seq<char>
    decreases sel, 0int,
{
    match sel {
        Selection::Field(f) => field_head(f) + if f.selection_set.items@.len() == 0 {
            Seq::empty()
        } else {
            set_min(f.selection_set)
        },
        Selection::InlineFragment(fr) => fragment_head(fr) + set_min(fr.selection_set),
    }
}

/// A selection set in indented form whose closing brace stands after `pad`.
pub open spec fn set_pretty(set: SelectionSet, pad: Seq<char>, step: nat) -> Seq<char>
    decreases set, 2int,
{
    "{\n"@ + items_pretty(set.items@, pad + spaces(step), step) + pad + "}\n"@
}

/// The items of a set in indented form, one line each, after `pad`.
pub open spec fn items_pretty(items: Seq<Selection>, pad: Seq<char>, step: nat) -> Seq<char>
    decreases items, 1int,
{
    if items.len() == 0 {
        Seq::empty()
    } else {
        items_pretty(items.subrange(0, items.len() - 1), pad, step) + sel_pretty(items[items.len() - 1], pad, step)
    }
}

/// One selection in indented form after `pad`.
pub open spec fn sel_pretty(sel: Selection, pad: Seq<char>, step: nat) -> Seq<char>
    decreases sel, 0int,
{
    match sel {
        Selection::Field(f) => pad + field_head(f) + if f.selection_set.items@.len() == 0 {
            "\n"@
        } else {
            " "@ + set_pretty(f.selection_set, pad, step)
        },
        Selection::InlineFragment(fr) => pad + fragment_head(fr) + " "@ + set_pretty(fr.selection_set, pad, step),
    }
}

/// A selection set in the given style, at the outermost level.
pub open spec fn set_text(set: SelectionSet, style: Style) -> Seq<char> {
    if style.minified { set_min(set) } else { set_pretty(set, Seq::empty(), style.indent as nat) }
}

/// The definitions of a document in the given style, one after another.
pub open spec fn defs_text(defs: Seq<Definition>, style: Style) -> Seq<char>
    decreases defs.len(),
{
    if defs.len() == 0 {
        Seq::empty()
    } else {
        defs_text(defs.drop_last(), style) + match defs.last() {
            Definition::Operation(OperationDefinition::SelectionSet(set)) => set_text(set, style),
        }
    }
}

fn write_head(out: &mut String, sel: &Selection)
    ensures
        final(out)@ == old(out)@ + match *sel {
            Selection::Field(f) => field_head(f),
            Selection::InlineFragment(fr) => fragment_head(fr),
        },
{
    match sel {
        Selection::Field(f) => {
            match &f.alias {
                Some(a) => {
                    out.append(a.as_str());
                    out.append(":");
                },
                None => {},
            }
            out.append(f.name.as_str());
            write_args(out, &f.arguments);
        },
        Selection::InlineFragment(fr) => {
            match &fr.type_condition {
                Some(t) => {
                    out.append("...on ");
                    out.append(t.as_str());
                },
                None => {
                    out.append("...");
                },
            }
        },
    }
}

fn write_min(out: &mut String, set: &SelectionSet)
    ensures
        final(out)@ == old(out)@ + set_min(*set),
    decreases set,
{
    out.append("{");
    let ghost start = out@;
    let mut i: usize = 0;
    while i < set.items.len()
        invariant
            0 <= i <= set.items@.len(),
            out@ == start + items_min(set.items@.subrange(0, i as int)),
        decreases set.items@.len() - i,
    {
        let ghost before = out@;
        let ghost pre = set.items@.subrange(0, i as int);
        let ghost next = set.items@.subrange(0, i as int + 1);
        assert(next.subrange(0, i as int) =~= pre);
        if i > 0 {
            out.append(" ");
        }
        let sel = &set.items[i];
        write_head(out, sel);
        match sel {
            Selection::Field(f) => {
                if f.selection_set.items.len() > 0 {
                    write_min(out, &f.selection_set);
                }
            },
            Selection::InlineFragment(fr) => {
                write_min(out, &fr.selection_set);
            },
        }
        proof {
            assert(next[i as int] == *sel);
            if i == 0 {
                assert(out@ =~= before + sel_min(*sel));
                assert(items_min(next) == sel_min(next[0]));
                assert(items_min(pre) == Seq::<char>::empty());
            } else {
                assert(out@ =~= before + " "@ + sel_min(*sel));
            }
            assert(out@ =~= start + items_min(next));
        }
        i = i + 1;
    }
    assert(set.items@.subrange(0, set.items@.len() as int) =~= set.items@);
    out.append("}");
}

fn write_spaces(out: &mut String, n: usize)
    ensures
        final(out)@ == old(out)@ + spaces(n as nat),
{
    let ghost start = out@;
    let mut i: usize = 0;
    while i < n
        invariant
            0 <= i <= n,
            out@ == start + spaces(i as nat),
        decreases n - i,
    {
        out.append(" ");
        i = i + 1;
    }
}

fn write_pretty(out: &mut String, set: &SelectionSet, pad: &String, step: usize)
    ensures
        final(out)@ == old(out)@ + set_pretty(*set, pad@, step as nat),
    decreases set,
{
    out.append("{\n");
    let ghost start = out@;
    let mut inner = pad.clone();
    write_spaces(&mut inner, step);
    let mut i: usize = 0;
    while i < set.items.len()
        invariant
            0 <= i <= set.items@.len(),
            inner@ == pad@ + spaces(step as nat),
            out@ == start + items_pretty(set.items@.subrange(0, i as int), inner@, step as nat),
        decreases set.items@.len() - i,
    {
        let ghost pre = set.items@.subrange(0, i as int);
        let ghost next = set.items@.subrange(0, i as int + 1);
        assert(next.subrange(0, i as int) =~= pre);
        let ghost before = out@;
        out.append(inner.as_str());
        let sel = &set.items[i];
        write_head(out, sel);
        match sel {
            Selection::Field(f) => {
                if f.selection_set.items.len() > 0 {
                    out.append(" ");
                    write_pretty(out, &f.selection_set, &inner, step);
                } else {
                    out.append("\n");
                }
            },
            Selection::InlineFragment(fr) => {
                out.append(" ");
                write_pretty(out, &fr.selection_set, &inner, step);
            },
        }
        proof {
            assert(next[i as int] == *sel);
            assert(out@ =~= before + sel_pretty(*sel, inner@, step as nat));
            assert(out@ =~= start + items_pretty(next, inner@, step as nat));
        }
        i = i + 1;
    }
    assert(set.items@.subrange(0, set.items@.len() as int) =~= set.items@);
    out.append(pad.as_str());
    out.append("}\n");
}

impl Document {
    /// The document rendered in `style`.
    pub fn format(&self, style: &Style) -> (r: String)
        ensures
            r@ == defs_text(self.definitions@, *style),
    {
        let mut out = String::new();
        let mut i: usize = 0;
        while i < self.definitions.len()
            invariant
                0 <= i <= self.definitions@.len(),
                out@ == defs_text(self.definitions@.subrange(0, i as int), *style),
            decreases self.definitions@.len() - i,
        {
            let ghost next = self.definitions@.subrange(0, i as int + 1);
            assert(next.drop_last() =~= self.definitions@.subrange(0, i as int));
            match &self.definitions[i] {
                Definition::Operation(OperationDefinition::SelectionSet(set)) => {
                    if style.minified {
                        write_min(&mut out, set);
                    } else {
                        let pad = String::new();
                        write_pretty(&mut out, set, &pad, style.indent);
                    }
                },
            }
            i = i + 1;
        }
        assert(self.definitions@.subrange(0, i as int) =~= self.definitions@);
        out
    }

    /// The document rendered in the default style: indented by two spaces.
    pub fn to_string(&self) -> (r: String)
        ensures
            r@ == defs_text(self.definitions@, Style { indent: 2, minified: false }),
    {
        let style = Style { indent: 2, minified: false };
        self.format(&style)
    }
}

} // verus!
