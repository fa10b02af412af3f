//! Emitted code seen as lines: emitting without action comments gives the
//! code that emitting with them gives, with the comment lines taken out.
use vstd::prelude::*;

use super::emitter::{
    base_text, comments_text, contract_text, contracts_text, fn_header_text, function_text, functions_text, import_text,
    lemma_comments_off, modifier_text, root_text, skip_text, EmitOptions,
};
use crate::hir::hir::{FunctionTy, SpecFunction, SpecHir};
use crate::utils::sanitized;

verus! {

/// Whether `s` begins with `p`.
pub open spec fn starts_with(s: Seq<char>, p: Seq<char>) -> bool {
    p.len() <= s.len() && s.take(p.len() as int) == p
}

/// The complete lines of `s` that do not start with `p`, where `line` is
/// the part of the current line read before `s`.
pub open spec fn done_lines(s: Seq<char>, line: Seq<char>, p: Seq<char>) -> Seq<char>
    decreases s.len(),
{
    if s.len() == 0 {
        Seq::empty()
    } else {
        let l = line.push(s[0]);
        if s[0] == '\n' {
            (if starts_with(l, p) {
                Seq::empty()
            } else {
                l
            }) + done_lines(s.drop_first(), Seq::empty(), p)
        } else {
            done_lines(s.drop_first(), l, p)
        }
    }
}

/// The unfinished last line after reading `s`, where `line` is the part of
/// the current line read before `s`.
pub open spec fn rest_line(s: Seq<char>, line: Seq<char>) -> Seq<char>
    decreases s.len(),
{
    if s.len() == 0 {
        line
    } else if s[0] == '\n' {
        rest_line(s.drop_first(), Seq::empty())
    } else {
        rest_line(s.drop_first(), line.push(s[0]))
    }
}

/// `s` without its complete lines (those that end with a newline) that
/// start with `p`.
pub open spec fn without_lines(s: Seq<char>, p: Seq<char>) -> Seq<char> {
    done_lines(s, Seq::empty(), p) + rest_line(s, Seq::empty())
}

/// Reading `a` then `b` is reading `a + b`.
pub proof fn lemma_lines_concat(a: Seq<char>, b: Seq<char>, line: Seq<char>, p: Seq<char>)
    ensures
        done_lines(a + b, line, p) == done_lines(a, line, p) + done_lines(b, rest_line(a, line), p),
        rest_line(a + b, line) == rest_line(b, rest_line(a, line)),
    decreases a.len(),
{
    if a.len() == 0 {
        assert(a + b =~= b);
        assert(done_lines(a, line, p) + done_lines(b, rest_line(a, line), p) =~= done_lines(b, line, p));
    } else {
        assert((a + b)[0] == a[0]);
        assert((a + b).drop_first() =~= a.drop_first() + b);
        let l = line.push(a[0]);
        if a[0] == '\n' {
            lemma_lines_concat(a.drop_first(), b, Seq::empty(), p);
            let h = if starts_with(l, p) {
                Seq::<char>::empty()
            } else {
                l
            };
            assert(h + (done_lines(a.drop_first(), Seq::empty(), p) + done_lines(
                b,
                rest_line(a.drop_first(), Seq::empty()),
                p,
            )) =~= (h + done_lines(a.drop_first(), Seq::empty(), p)) + done_lines(
                b,
                rest_line(a.drop_first(), Seq::empty()),
                p,
            ));
        } else {
            lemma_lines_concat(a.drop_first(), b, l, p);
        }
    }
}

/// `a` reads as complete lines that, without those that start with `p`,
/// are `b`.
pub open spec fn strips_to(a: Seq<char>, b: Seq<char>, p: Seq<char>) -> bool {
    rest_line(a, Seq::empty()) == Seq::<char>::empty() && done_lines(a, Seq::empty(), p) == b
}

proof fn lemma_strips_concat(a1: Seq<char>, b1: Seq<char>, a2: Seq<char>, b2: Seq<char>, p: Seq<char>)
    requires
        strips_to(a1, b1, p),
        strips_to(a2, b2, p),
    ensures
        strips_to(a1 + a2, b1 + b2, p),
{
    lemma_lines_concat(a1, a2, Seq::empty(), p);
}

/// After a newline the current line is empty.
proof fn lemma_rest_after_newline(a: Seq<char>, line: Seq<char>)
    requires
        a.len() > 0 && a.last() == '\n',
    ensures
        rest_line(a, line) == Seq::<char>::empty(),
    decreases a.len(),
{
    if a.len() == 1 {
        assert(a[0] == '\n');
        assert(a.drop_first() =~= Seq::<char>::empty());
        assert(rest_line(a.drop_first(), Seq::empty()) == Seq::<char>::empty());
    } else {
        assert(a.drop_first().last() == a.last());
        if a[0] == '\n' {
            lemma_rest_after_newline(a.drop_first(), Seq::empty());
        } else {
            lemma_rest_after_newline(a.drop_first(), line.push(a[0]));
        }
    }
}


/// `t` and `f` read the same: after any current line, they give the same
/// complete lines once those that start with `p` are dropped, and leave
/// the same unfinished line.
pub open spec fn same_lines(t: Seq<char>, f: Seq<char>, p: Seq<char>) -> bool {
    forall|line: Seq<char>|
        #![trigger done_lines(t, line, p)]
        done_lines(t, line, p) == done_lines(f, line, p) && rest_line(t, line) == rest_line(f, line)
}

proof fn lemma_same_refl(x: Seq<char>, p: Seq<char>)
    ensures
        same_lines(x, x, p),
{
}

proof fn lemma_same_concat(t1: Seq<char>, f1: Seq<char>, t2: Seq<char>, f2: Seq<char>, p: Seq<char>)
    requires
        same_lines(t1, f1, p),
        same_lines(t2, f2, p),
    ensures
        same_lines(t1 + t2, f1 + f2, p),
{
    assert forall|line: Seq<char>| #![trigger done_lines(t1 + t2, line, p)]
        done_lines(t1 + t2, line, p) == done_lines(f1 + f2, line, p) && rest_line(t1 + t2, line)
            == rest_line(f1 + f2, line) by {
        lemma_lines_concat(t1, t2, line, p);
        lemma_lines_concat(f1, f2, line, p);
        assert(done_lines(t1, line, p) == done_lines(f1, line, p));
        let r = rest_line(t1, line);
        assert(done_lines(t2, r, p) == done_lines(f2, r, p));
    }
}

/// Lines that are all dropped, put after a newline, change nothing.
proof fn lemma_insert_dropped(a: Seq<char>, c: Seq<char>, p: Seq<char>)
    requires
        a.len() > 0,
        a.last() == '\n',
        strips_to(c, Seq::<char>::empty(), p),
    ensures
        same_lines(a + c, a, p),
{
    assert forall|line: Seq<char>| #![trigger done_lines(a + c, line, p)]
        done_lines(a + c, line, p) == done_lines(a, line, p) && rest_line(a + c, line) == rest_line(a, line) by {
        lemma_lines_concat(a, c, line, p);
        lemma_rest_after_newline(a, line);
        assert(done_lines(a, line, p) + Seq::<char>::empty() =~= done_lines(a, line, p));
    }
}

/// The start of an action comment line: two indentations and `// `.
pub open spec fn comment_prefix(ind: Seq<char>) -> Seq<char> {
    ind + ind + "// "@
}

/// The line of the action comment `l` is dropped whole: it is one line, or
/// every line it makes starts with the comment prefix.
pub open spec fn comment_dropped(ind: Seq<char>, l: Seq<char>) -> bool {
    strips_to(ind + ind + "// "@ + l + "\n"@, Seq::<char>::empty(), comment_prefix(ind))
}

/// Every action comment of a HIR's functions is dropped whole.
pub open spec fn comments_dropped(h: SpecHir, ind: Seq<char>) -> bool {
    match h {
        SpecHir::Root(kids) => forall|i: int|
            0 <= i < kids.len() ==> (#[trigger] kids[i] matches SpecHir::Contract(_, ks) ==> functions_comments_dropped(
                ks,
                ind,
            )),
        _ => true,
    }
}

/// Every action comment of the functions among `kids` is dropped whole.
pub open spec fn functions_comments_dropped(kids: Seq<SpecHir>, ind: Seq<char>) -> bool {
    forall|i: int|
        0 <= i < kids.len() ==> (#[trigger] kids[i] matches SpecHir::Function(f) ==> (f.children matches Some(
            ks,
        ) ==> forall|j: int| 0 <= j < ks.len() ==> (#[trigger] ks[j] matches SpecHir::Comment(l) ==> comment_dropped(ind, l))))
}

/// The options `o` with or without action comments.
pub open spec fn with_comments(o: EmitOptions, comments: bool) -> EmitOptions {
    EmitOptions { comments, ..o }
}

/// The action comments of a function are all dropped.
proof fn lemma_comment_lines(ind: Seq<char>, kids: Seq<SpecHir>)
    requires
        forall|j: int| 0 <= j < kids.len() ==> (#[trigger] kids[j] matches SpecHir::Comment(l) ==> comment_dropped(ind, l)),
    ensures
        strips_to(comments_text(true, ind, kids), Seq::<char>::empty(), comment_prefix(ind)),
    decreases kids.len(),
{
    let p = comment_prefix(ind);
    if kids.len() > 0 {
        lemma_comment_lines(ind, kids.drop_last());
        let prev = comments_text(true, ind, kids.drop_last());
        assert(kids.last() == kids[kids.len() - 1]);
        match kids.last() {
            SpecHir::Comment(l) => {
                let line = ind + ind + "// "@ + l + "\n"@;
                lemma_strips_concat(prev, Seq::empty(), line, Seq::empty(), p);
                assert(comments_text(true, ind, kids) =~= prev + line);
                assert(Seq::<char>::empty() + Seq::<char>::empty() =~= Seq::<char>::empty());
            },
            _ => {
                assert(comments_text(true, ind, kids) =~= prev);
            },
        }
    } else {
        assert(comments_text(true, ind, kids) =~= Seq::<char>::empty());
    }
}

/// A function's code with comments reads as its code without comments;
/// both are empty, or both end with a blank line after text that reads the
/// same.
proof fn lemma_function_lines(o: EmitOptions, f: SpecFunction)
    requires
        f.children matches Some(ks) ==> forall|j: int|
            0 <= j < ks.len() ==> (#[trigger] ks[j] matches SpecHir::Comment(l) ==> comment_dropped(o.ind, l)),
    ensures
        (function_text(with_comments(o, true), f) == Seq::<char>::empty() && function_text(
            with_comments(o, false),
            f,
        ) == Seq::<char>::empty()) || exists|a: Seq<char>, b: Seq<char>|
            #![trigger same_lines(a, b, comment_prefix(o.ind))]
            function_text(with_comments(o, true), f) == a.push('\n') && function_text(
                with_comments(o, false),
                f,
            ) == b.push('\n') && same_lines(a, b, comment_prefix(o.ind)),
{
    reveal_strlit("}\n\n");
    reveal_strlit("vm.skip(true);\n");
    reveal_strlit("{\n");
    reveal_strlit(" {\n");
    reveal_strlit("\n");
    let ind = o.ind;
    let p = comment_prefix(ind);
    let ot = with_comments(o, true);
    let of = with_comments(o, false);
    if f.ty == FunctionTy::Modifier {
        if !o.skip_modifiers {
            reveal_strlit("modifier ");
            reveal_strlit("() {\n");
            reveal_strlit("_;\n");
            reveal_strlit("}\n");
            let mt = modifier_text(ind, f.identifier);
            let a = mt.drop_last();
            assert(mt =~= a.push('\n'));
            lemma_same_refl(a, p);
        }
    } else {
        let h = fn_header_text(ind, f);
        assert(h.len() > 0 && h.last() == '\n');
        let sk = skip_text(ind, o.vm_skip);
        let hs = h + sk;
        assert(hs.len() > 0 && hs.last() == '\n') by {
            if o.vm_skip {
                assert(sk.len() > 0 && sk.last() == '\n');
                assert(hs.last() == sk.last());
            } else {
                assert(sk =~= Seq::<char>::empty());
                assert(hs =~= h);
            }
        }
        let ct = match f.children {
            Some(kids) => comments_text(true, ind, kids),
            None => Seq::empty(),
        };
        let cf = match f.children {
            Some(kids) => comments_text(false, ind, kids),
            None => Seq::empty(),
        };
        match f.children {
            Some(kids) => {
                lemma_comment_lines(ind, kids);
                lemma_comments_off(ind, kids);
            },
            None => {},
        }
        assert(cf == Seq::<char>::empty());
        lemma_insert_dropped(hs, ct, p);
        let close = ind + seq!['}', '\n'];
        lemma_same_refl(close, p);
        lemma_same_concat(hs + ct, hs, close, close, p);
        let a = hs + ct + close;
        let b = hs + close;
        assert(function_text(ot, f) =~= a.push('\n'));
        assert(function_text(of, f) =~= b.push('\n'));
    }
}

/// The functions of a contract read alike with and without comments: both
/// are empty, or both end with a blank line after text that reads the
/// same.
proof fn lemma_functions_lines(o: EmitOptions, kids: Seq<SpecHir>)
    requires
        functions_comments_dropped(kids, o.ind),
    ensures
        (functions_text(with_comments(o, true), kids) == Seq::<char>::empty() && functions_text(
            with_comments(o, false),
            kids,
        ) == Seq::<char>::empty()) || exists|a: Seq<char>, b: Seq<char>|
            #![trigger same_lines(a, b, comment_prefix(o.ind))]
            functions_text(with_comments(o, true), kids) == a.push('\n') && functions_text(
                with_comments(o, false),
                kids,
            ) == b.push('\n') && same_lines(a, b, comment_prefix(o.ind)),
    decreases kids.len(),
{
    let p = comment_prefix(o.ind);
    let ot = with_comments(o, true);
    let of = with_comments(o, false);
    if kids.len() > 0 {
        let dl = kids.drop_last();
        assert(functions_comments_dropped(dl, o.ind)) by {
            assert forall|i: int| 0 <= i < dl.len() implies (#[trigger] dl[i] matches SpecHir::Function(f) ==> (
            f.children matches Some(ks) ==> forall|j: int|
                0 <= j < ks.len() ==> (#[trigger] ks[j] matches SpecHir::Comment(l) ==> comment_dropped(o.ind, l)))) by {
                assert(dl[i] == kids[i]);
            }
        }
        lemma_functions_lines(o, dl);
        let pt = functions_text(ot, dl);
        let pf = functions_text(of, dl);
        if pt == Seq::<char>::empty() && pf == Seq::<char>::empty() {
            lemma_same_refl(pt, p);
        } else {
            let (a0, b0) = choose|a: Seq<char>, b: Seq<char>|
                #![trigger same_lines(a, b, p)]
                pt == a.push('\n') && pf == b.push('\n') && same_lines(a, b, p);
            lemma_same_refl(seq!['\n'], p);
            lemma_same_concat(a0, b0, seq!['\n'], seq!['\n'], p);
            assert(pt =~= a0 + seq!['\n']);
            assert(pf =~= b0 + seq!['\n']);
        }
        assert(same_lines(pt, pf, p));
        assert(kids.last() == kids[kids.len() - 1]);
        match kids.last() {
            SpecHir::Function(f) => {
                lemma_function_lines(o, f);
                let ft = function_text(ot, f);
                let ff = function_text(of, f);
                if ft == Seq::<char>::empty() && ff == Seq::<char>::empty() {
                    assert(functions_text(ot, kids) =~= pt);
                    assert(functions_text(of, kids) =~= pf);
                } else {
                    let (a1, b1) = choose|a: Seq<char>, b: Seq<char>|
                        #![trigger same_lines(a, b, p)]
                        ft == a.push('\n') && ff == b.push('\n') && same_lines(a, b, p);
                    lemma_same_concat(pt, pf, a1, b1, p);
                    assert(functions_text(ot, kids) =~= (pt + a1).push('\n'));
                    assert(functions_text(of, kids) =~= (pf + b1).push('\n'));
                    assert(same_lines(pt + a1, pf + b1, p));
                }
            },
            _ => {
                assert(functions_text(ot, kids) =~= pt);
                assert(functions_text(of, kids) =~= pf);
            },
        }
    } else {
        assert(functions_text(ot, kids) =~= Seq::<char>::empty());
        assert(functions_text(of, kids) =~= Seq::<char>::empty());
    }
}

/// A contract's code reads alike with and without comments.
proof fn lemma_contract_lines(o: EmitOptions, id: Seq<char>, kids: Seq<SpecHir>)
    requires
        functions_comments_dropped(kids, o.ind),
    ensures
        same_lines(
            contract_text(with_comments(o, true), id, kids),
            contract_text(with_comments(o, false), id, kids),
            comment_prefix(o.ind),
        ),
{
    let p = comment_prefix(o.ind);
    let ot = with_comments(o, true);
    let of = with_comments(o, false);
    let h = "contract "@ + sanitized(id) + base_text(o.vm_skip) + " {\n"@;
    lemma_functions_lines(o, kids);
    let ft = functions_text(ot, kids);
    let ff = functions_text(of, kids);
    if ft == Seq::<char>::empty() && ff == Seq::<char>::empty() {
        assert(contract_text(ot, id, kids) == contract_text(of, id, kids));
        lemma_same_refl(contract_text(ot, id, kids), p);
    } else {
        let (a, b) = choose|a: Seq<char>, b: Seq<char>|
            #![trigger same_lines(a, b, p)]
            ft == a.push('\n') && ff == b.push('\n') && same_lines(a, b, p);
        let brace = "}"@;
        assert(contract_text(ot, id, kids) =~= h + a + brace);
        assert(contract_text(of, id, kids) =~= h + b + brace);
        lemma_same_refl(h, p);
        lemma_same_refl(brace, p);
        lemma_same_concat(h, h, a, b, p);
        lemma_same_concat(h + a, h + b, brace, brace, p);
    }
}

/// A root's contracts read alike with and without comments.
proof fn lemma_contracts_lines(o: EmitOptions, kids: Seq<SpecHir>)
    requires
        comments_dropped(SpecHir::Root(kids), o.ind),
    ensures
        same_lines(
            contracts_text(with_comments(o, true), kids),
            contracts_text(with_comments(o, false), kids),
            comment_prefix(o.ind),
        ),
    decreases kids.len(),
{
    let p = comment_prefix(o.ind);
    let ot = with_comments(o, true);
    let of = with_comments(o, false);
    if kids.len() == 0 {
        assert(contracts_text(ot, kids) =~= Seq::<char>::empty());
        assert(contracts_text(of, kids) =~= Seq::<char>::empty());
        lemma_same_refl(Seq::<char>::empty(), p);
    } else {
        let dl = kids.drop_last();
        assert(comments_dropped(SpecHir::Root(dl), o.ind)) by {
            assert forall|i: int| 0 <= i < dl.len() implies (#[trigger] dl[i] matches SpecHir::Contract(_, ks)
                ==> functions_comments_dropped(ks, o.ind)) by {
                assert(dl[i] == kids[i]);
            }
        }
        lemma_contracts_lines(o, dl);
        let at = contracts_text(ot, dl);
        let af = contracts_text(of, dl);
        assert(kids.last() == kids[kids.len() - 1]);
        match kids.last() {
            SpecHir::Contract(id, ks) => {
                lemma_contract_lines(o, id, ks);
                lemma_same_concat(at, af, contract_text(ot, id, ks), contract_text(of, id, ks), p);
                assert(contracts_text(ot, kids) =~= at + contract_text(ot, id, ks));
                assert(contracts_text(of, kids) =~= af + contract_text(of, id, ks));
            },
            _ => {
                assert(contracts_text(ot, kids) =~= at);
                assert(contracts_text(of, kids) =~= af);
            },
        }
    }
}

/// Action comments are the only lines that the comments option adds:
/// emitting without comments gives the code that emitting with comments
/// gives, without the lines that start with two indentations and `// `.
/// This holds wherever the comment lines are dropped whole and no line of
/// the code without comments starts with that prefix.
pub proof fn law_comment_lines_removed(o: EmitOptions, h: SpecHir)
    requires
        comments_dropped(h, o.ind),
        without_lines(root_text(with_comments(o, false), h), comment_prefix(o.ind)) == root_text(
            with_comments(o, false),
            h,
        ),
    ensures
        root_text(with_comments(o, false), h) == without_lines(
            root_text(with_comments(o, true), h),
            comment_prefix(o.ind),
        ),
{
    let p = comment_prefix(o.ind);
    let ot = with_comments(o, true);
    let of = with_comments(o, false);
    match h {
        SpecHir::Root(kids) => {
            let start = "pragma solidity "@ + o.version + ";\n\n"@ + import_text(o.vm_skip);
            lemma_contracts_lines(o, kids);
            lemma_same_refl(start, p);
            lemma_same_concat(start, start, contracts_text(ot, kids), contracts_text(of, kids), p);
            assert(root_text(ot, h) =~= start + contracts_text(ot, kids));
            assert(root_text(of, h) =~= start + contracts_text(of, kids));
            assert(done_lines(root_text(ot, h), Seq::empty(), p) == done_lines(root_text(of, h), Seq::empty(), p));
        },
        _ => {},
    }
}

} // verus!
