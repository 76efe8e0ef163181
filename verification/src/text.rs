//! Textual rendering of numbers, terms and sort expressions.
use vstd::prelude::*;
use vstd::string::*;

use crate::sort::{CoercionClass, SSortExpr, SortClosure, SortExpr, SortKind, ValueKind, closure_view};
use crate::term::{CaseBranch, SBranch, STerm, Term, lemma_app_view, lemma_case_view, view_branches, view_terms};

verus! {

/// The decimal digit for `d < 10`.
pub open spec fn digit(d: nat) -> char {
    if d == 0 {
        '0'
    } else if d == 1 {
        '1'
    } else if d == 2 {
        '2'
    } else if d == 3 {
        '3'
    } else if d == 4 {
        '4'
    } else if d == 5 {
        '5'
    } else if d == 6 {
        '6'
    } else if d == 7 {
        '7'
    } else if d == 8 {
        '8'
    } else {
        '9'
    }
}

/// The decimal representation of `n`, without leading zeros.
#[verifier::opaque]
pub open spec fn decimal(n: nat) -> Seq<char>
    decreases n,
{
    if n < 10 {
        seq![digit(n)]
    } else {
        decimal(n / 10).push(digit(n % 10))
    }
}

fn digit_str(d: usize) -> (r: &'static str)
    requires
        d < 10,
    ensures
        r@ == seq![digit(d as nat)],
{
    proof {
        reveal_strlit("0");
        reveal_strlit("1");
        reveal_strlit("2");
        reveal_strlit("3");
        reveal_strlit("4");
        reveal_strlit("5");
        reveal_strlit("6");
        reveal_strlit("7");
        reveal_strlit("8");
        reveal_strlit("9");
    }
    if d == 0 {
        "0"
    } else if d == 1 {
        "1"
    } else if d == 2 {
        "2"
    } else if d == 3 {
        "3"
    } else if d == 4 {
        "4"
    } else if d == 5 {
        "5"
    } else if d == 6 {
        "6"
    } else if d == 7 {
        "7"
    } else if d == 8 {
        "8"
    } else {
        "9"
    }
}

/// The decimal representation of a number.
pub fn decimal_string(n: usize) -> (r: String)
    ensures
        r@ == decimal(n as nat),
    decreases n,
{
    proof {
        reveal(decimal);
    }
    if n < 10 {
        let mut s = String::new();
        s.append(digit_str(n));
        s
    } else {
        let mut s = decimal_string(n / 10);
        s.append(digit_str(n % 10));
        s
    }
}

/// The rendering of a term model: `x`, `f(a, b)`, `?h`, `let x = a in b`,
/// or `case s of C(x, y) => b | ... end`.
pub open spec fn term_text(t: STerm) -> Seq<char>
    decreases t, 0nat,
{
    match t {
        STerm::Var(n) => n,
        STerm::App { op, args } => op + "("@ + list_text(args, 0) + ")"@,
        STerm::Hole { name } => match name {
            Some(n) => "?"@ + n,
            None => "?"@,
        },
        STerm::Let { name, bound, body } => "let "@ + name + " = "@ + term_text(*bound) + " in "@ + term_text(*body),
        STerm::Case { scrutinee, branches } => "case "@ + term_text(*scrutinee) + " of "@ + branches_text(branches, 0) + " end"@,
    }
}

/// The renderings of the terms of `a` from position `i` on, separated by
/// `", "` (with a leading separator when `i > 0`).
pub open spec fn list_text(a: Seq<STerm>, i: int) -> Seq<char>
    decreases a, (if 0 <= i < a.len() { a.len() - i } else { 0 }) as nat,
{
    if 0 <= i < a.len() {
        (if i > 0 { ", "@ } else { Seq::empty() }) + term_text(a[i]) + list_text(a, i + 1)
    } else {
        Seq::empty()
    }
}

/// Names from position `i` on, separated by `", "`.
pub open spec fn names_text(ns: Seq<Seq<char>>, i: int) -> Seq<char>
    decreases (if 0 <= i < ns.len() { ns.len() - i } else { 0 }) as nat,
{
    if 0 <= i < ns.len() {
        (if i > 0 { ", "@ } else { Seq::empty() }) + ns[i] + names_text(ns, i + 1)
    } else {
        Seq::empty()
    }
}

/// Branches from position `i` on as `C(x, y) => body`, separated by
/// `" | "`.
pub open spec fn branches_text(bs: Seq<SBranch>, i: int) -> Seq<char>
    decreases bs, (if 0 <= i < bs.len() { bs.len() - i } else { 0 }) as nat,
{
    if 0 <= i < bs.len() {
        (if i > 0 { " | "@ } else { Seq::empty() }) + bs[i].constructor + "("@ + names_text(bs[i].binders, 0) + ") => "@
            + term_text(bs[i].body) + branches_text(bs, i + 1)
    } else {
        Seq::empty()
    }
}

/// The rendering of a sort expression model: `S` for a bare name, `S(a,
/// b)` for an application.
pub open spec fn sort_text(e: SortExpr) -> Seq<char> {
    match e {
        SortExpr::Name(n) => n@,
        SortExpr::App { name, args } => name@ + "("@ + list_text(view_terms(args@), 0) + ")"@,
    }
}

/// The rendering of a sort expression model in its normal spelling.
pub open spec fn sort_model_text(e: SSortExpr) -> Seq<char> {
    if e.args.len() == 0 {
        e.head
    } else {
        e.head + "("@ + list_text(e.args, 0) + ")"@
    }
}

/// A normalized sort expression renders as its model does.
pub proof fn lemma_sort_text_normal(e: SortExpr)
    requires
        e.is_normal(),
    ensures
        sort_text(e) == sort_model_text(e@),
{
}

fn term_list_text(args: &Vec<Term>, out: &mut String)
    ensures
        final(out)@ == old(out)@ + list_text(view_terms(args@), 0),
    decreases args,
{
    let ghost a = view_terms(args@);
    let ghost start = out@;
    let mut i: usize = 0;
    while i < args.len()
        invariant
            a == view_terms(args@),
            i <= args@.len(),
            start == old(out)@,
            start + list_text(a, 0) == out@ + list_text(a, i as int),
        decreases args@.len() - i,
    {
        proof {
            assert(decreases_to!(args => args@[i as int]));
            assert(a[i as int] == args@[i as int]@);
            reveal_strlit(", ");
        }
        let ghost before = out@;
        if i > 0 {
            out.append(", ");
        }
        args[i].write_text(out);
        proof {
            let sep: Seq<char> = if i > 0 { ", "@ } else { Seq::empty() };
            assert(out@ == before + sep + term_text(a[i as int]));
            assert(list_text(a, i as int) == sep + term_text(a[i as int]) + list_text(a, i + 1));
            assert(before + list_text(a, i as int) =~= out@ + list_text(a, i + 1));
        }
        i = i + 1;
    }
    proof {
        assert(out@ + list_text(a, i as int) =~= out@);
    }
}

fn names_list_text(ns: &Vec<String>, out: &mut String)
    ensures
        final(out)@ == old(out)@ + names_text(crate::term::names_view(ns@), 0),
{
    let ghost a = crate::term::names_view(ns@);
    let ghost start = out@;
    let mut i: usize = 0;
    while i < ns.len()
        invariant
            a == crate::term::names_view(ns@),
            i <= ns@.len(),
            start == old(out)@,
            start + names_text(a, 0) == out@ + names_text(a, i as int),
        decreases ns@.len() - i,
    {
        proof {
            reveal_strlit(", ");
        }
        let ghost before = out@;
        if i > 0 {
            out.append(", ");
        }
        out.append(ns[i].as_str());
        proof {
            let sep: Seq<char> = if i > 0 { ", "@ } else { Seq::empty() };
            assert(out@ == before + sep + a[i as int]);
            assert(names_text(a, i as int) == sep + a[i as int] + names_text(a, i + 1));
            assert(before + names_text(a, i as int) =~= out@ + names_text(a, i + 1));
        }
        i = i + 1;
    }
    proof {
        assert(out@ + names_text(a, i as int) =~= out@);
    }
}

fn branch_list_text(bs: &Vec<CaseBranch>, out: &mut String)
    ensures
        final(out)@ == old(out)@ + branches_text(view_branches(bs@), 0),
    decreases bs,
{
    let ghost a = view_branches(bs@);
    let ghost start = out@;
    let mut i: usize = 0;
    while i < bs.len()
        invariant
            a == view_branches(bs@),
            i <= bs@.len(),
            start == old(out)@,
            start + branches_text(a, 0) == out@ + branches_text(a, i as int),
        decreases bs@.len() - i,
    {
        proof {
            assert(decreases_to!(bs => bs@[i as int]));
            assert(a[i as int] == bs@[i as int]@);
            reveal_strlit(" | ");
            reveal_strlit("(");
            reveal_strlit(") => ");
        }
        let b = &bs[i];
        let ghost before = out@;
        if i > 0 {
            out.append(" | ");
        }
        out.append(b.constructor.as_str());
        out.append("(");
        names_list_text(&b.binders, out);
        out.append(") => ");
        b.body.write_text(out);
        proof {
            let sep: Seq<char> = if i > 0 { " | "@ } else { Seq::empty() };
            let x = a[i as int];
            assert(out@ =~= before + sep + x.constructor + "("@ + names_text(x.binders, 0) + ") => "@ + term_text(x.body));
            assert(branches_text(a, i as int) == sep + x.constructor + "("@ + names_text(x.binders, 0) + ") => "@ + term_text(x.body) + branches_text(a, i + 1));
            assert(before + branches_text(a, i as int) =~= out@ + branches_text(a, i + 1));
        }
        i = i + 1;
    }
    proof {
        assert(out@ + branches_text(a, i as int) =~= out@);
    }
}

impl Term {
    /// Append the rendering of this term to `out`.
    pub fn write_text(&self, out: &mut String)
        ensures
            final(out)@ == old(out)@ + term_text(self@),
        decreases self,
    {
        proof {
            reveal_strlit("(");
            reveal_strlit(")");
            reveal_strlit("?");
            reveal_strlit("let ");
            reveal_strlit(" = ");
            reveal_strlit(" in ");
            reveal_strlit("case ");
            reveal_strlit(" of ");
            reveal_strlit(" end");
        }
        let ghost start = out@;
        match self {
            Term::Var(n) => {
                out.append(n.as_str());
            },
            Term::App { op, args } => {
                proof {
                    lemma_app_view(*self);
                }
                out.append(op.as_str());
                out.append("(");
                term_list_text(args, out);
                out.append(")");
                assert(out@ =~= start + term_text(self@));
            },
            Term::Hole { name } => {
                out.append("?");
                match name {
                    Some(n) => {
                        out.append(n.as_str());
                    },
                    None => {},
                }
                assert(out@ =~= start + term_text(self@));
            },
            Term::Let { name, bound, body } => {
                out.append("let ");
                out.append(name.as_str());
                out.append(" = ");
                bound.write_text(out);
                out.append(" in ");
                body.write_text(out);
                assert(out@ =~= start + term_text(self@));
            },
            Term::Case { scrutinee, branches } => {
                proof {
                    lemma_case_view(*self);
                }
                out.append("case ");
                scrutinee.write_text(out);
                out.append(" of ");
                branch_list_text(branches, out);
                out.append(" end");
                assert(out@ =~= start + term_text(self@));
            },
        }
    }

    /// The rendering of this term.
    pub fn to_string(&self) -> (r: String)
        ensures
            r@ == term_text(self@),
    {
        let mut s = String::new();
        self.write_text(&mut s);
        assert(s@ =~= term_text(self@));
        s
    }
}

impl SortExpr {
    /// The rendering of this sort expression.
    pub fn to_string(&self) -> (r: String)
        ensures
            r@ == sort_text(*self),
    {
        proof {
            reveal_strlit("(");
            reveal_strlit(")");
        }
        match self {
            SortExpr::Name(n) => n.clone(),
            SortExpr::App { name, args } => {
                let mut s = String::new();
                s.append(name.as_str());
                s.append("(");
                term_list_text(args, &mut s);
                s.append(")");
                assert(s@ =~= sort_text(*self));
                s
            },
        }
    }
}


/// The variant name of a value kind.
pub open spec fn value_kind_text(k: ValueKind) -> Seq<char> {
    match k {
        ValueKind::Bool => "Bool"@,
        ValueKind::Int => "Int"@,
        ValueKind::Float => "Float"@,
        ValueKind::Str => "Str"@,
        ValueKind::Bytes => "Bytes"@,
        ValueKind::Token => "Token"@,
        ValueKind::Null => "Null"@,
        ValueKind::Any => "Any"@,
        ValueKind::DateTime => "DateTime"@,
        ValueKind::Date => "Date"@,
        ValueKind::Time => "Time"@,
        ValueKind::Decimal => "Decimal"@,
        ValueKind::Uuid => "Uuid"@,
    }
}

/// The variant name of a value kind.
pub fn value_kind_str(k: ValueKind) -> (r: &'static str)
    ensures
        r@ == value_kind_text(k),
{
    proof {
        reveal_strlit("Bool");
        reveal_strlit("Int");
        reveal_strlit("Float");
        reveal_strlit("Str");
        reveal_strlit("Bytes");
        reveal_strlit("Token");
        reveal_strlit("Null");
        reveal_strlit("Any");
        reveal_strlit("DateTime");
        reveal_strlit("Date");
        reveal_strlit("Time");
        reveal_strlit("Decimal");
        reveal_strlit("Uuid");
    }
    match k {
        ValueKind::Bool => "Bool",
        ValueKind::Int => "Int",
        ValueKind::Float => "Float",
        ValueKind::Str => "Str",
        ValueKind::Bytes => "Bytes",
        ValueKind::Token => "Token",
        ValueKind::Null => "Null",
        ValueKind::Any => "Any",
        ValueKind::DateTime => "DateTime",
        ValueKind::Date => "Date",
        ValueKind::Time => "Time",
        ValueKind::Decimal => "Decimal",
        ValueKind::Uuid => "Uuid",
    }
}

/// The variant name of a coercion class.
pub open spec fn class_text(c: CoercionClass) -> Seq<char> {
    match c {
        CoercionClass::Iso => "Iso"@,
        CoercionClass::Retraction => "Retraction"@,
        CoercionClass::Projection => "Projection"@,
        CoercionClass::Opaque => "Opaque"@,
    }
}

/// The variant name of a coercion class.
pub fn class_str(c: CoercionClass) -> (r: &'static str)
    ensures
        r@ == class_text(c),
{
    proof {
        reveal_strlit("Iso");
        reveal_strlit("Retraction");
        reveal_strlit("Projection");
        reveal_strlit("Opaque");
    }
    match c {
        CoercionClass::Iso => "Iso",
        CoercionClass::Retraction => "Retraction",
        CoercionClass::Projection => "Projection",
        CoercionClass::Opaque => "Opaque",
    }
}

/// The rendering of a sort kind: `Structure`, `Val(Str)`,
/// `Coercion { from: Str, to: Int, class: Retraction }` or `Merger(Str)`.
pub open spec fn kind_text(k: SortKind) -> Seq<char> {
    match k {
        SortKind::Structure => "Structure"@,
        SortKind::Val(v) => "Val("@ + value_kind_text(v) + ")"@,
        SortKind::Coercion { from, to, class } => "Coercion { from: "@ + value_kind_text(from) + ", to: "@ + value_kind_text(to)
            + ", class: "@ + class_text(class) + " }"@,
        SortKind::Merger(v) => "Merger("@ + value_kind_text(v) + ")"@,
    }
}

/// The rendering of a sort kind.
pub fn kind_string(k: SortKind) -> (r: String)
    ensures
        r@ == kind_text(k),
{
    proof {
        reveal_strlit("Structure");
        reveal_strlit("Val(");
        reveal_strlit(")");
        reveal_strlit("Coercion { from: ");
        reveal_strlit(", to: ");
        reveal_strlit(", class: ");
        reveal_strlit(" }");
        reveal_strlit("Merger(");
    }
    let mut s = String::new();
    match k {
        SortKind::Structure => {
            s.append("Structure");
        },
        SortKind::Val(v) => {
            s.append("Val(");
            s.append(value_kind_str(v));
            s.append(")");
        },
        SortKind::Coercion { from, to, class } => {
            s.append("Coercion { from: ");
            s.append(value_kind_str(from));
            s.append(", to: ");
            s.append(value_kind_str(to));
            s.append(", class: ");
            s.append(class_str(class));
            s.append(" }");
        },
        SortKind::Merger(v) => {
            s.append("Merger(");
            s.append(value_kind_str(v));
            s.append(")");
        },
    }
    assert(s@ =~= kind_text(k));
    s
}

/// The quoted, comma-separated names from position `i` on.
pub open spec fn quoted_names_text(ns: Seq<Seq<char>>, i: int) -> Seq<char>
    decreases (if 0 <= i < ns.len() { ns.len() - i } else { 0 }) as nat,
{
    if 0 <= i < ns.len() {
        (if i > 0 { ", "@ } else { Seq::empty() }) + "\""@ + ns[i] + "\""@ + quoted_names_text(ns, i + 1)
    } else {
        Seq::empty()
    }
}

/// The rendering of a closure model: `Open` or `Closed(["a", "b"])`.
pub open spec fn closure_text(c: Option<Seq<Seq<char>>>) -> Seq<char> {
    match c {
        None => "Open"@,
        Some(ns) => "Closed(["@ + quoted_names_text(ns, 0) + "])"@,
    }
}

/// The rendering of a closure.
pub fn closure_string(c: &SortClosure) -> (r: String)
    ensures
        r@ == closure_text(closure_view(*c)),
{
    proof {
        reveal_strlit("Open");
        reveal_strlit("Closed([");
        reveal_strlit("])");
        reveal_strlit(", ");
        reveal_strlit("\"");
    }
    match c {
        SortClosure::Open => {
            let mut s = String::new();
            s.append("Open");
            s
        },
        SortClosure::Closed(cs) => {
            let ghost ns = Seq::new(cs@.len(), |i: int| cs@[i]@);
            let mut s = String::new();
            s.append("Closed([");
            let ghost start = s@;
            let mut i: usize = 0;
            while i < cs.len()
                invariant
                    ns == Seq::new(cs@.len(), |i: int| cs@[i]@),
                    i <= cs@.len(),
                    start + quoted_names_text(ns, 0) == s@ + quoted_names_text(ns, i as int),
                decreases cs@.len() - i,
            {
                let ghost before = s@;
                if i > 0 {
                    s.append(", ");
                }
                s.append("\"");
                s.append(cs[i].as_str());
                s.append("\"");
                proof {
                    let piece = (if i > 0 { ", "@ } else { Seq::<char>::empty() }) + "\""@ + ns[i as int] + "\""@;
                    assert(s@ =~= before + piece);
                    assert(before + (piece + quoted_names_text(ns, i + 1)) =~= s@ + quoted_names_text(ns, i + 1));
                }
                i = i + 1;
            }
            s.append("])");
            proof {
                assert(s@ =~= start + quoted_names_text(ns, 0) + "])"@);
                assert(closure_view(*c) == Some(ns));
            }
            s
        },
    }
}

} // verus!
