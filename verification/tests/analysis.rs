use analycore::graph::Relation;
use analycore::model::{
    BasicBlock, FnBody, LifetimeRelation, LocalDecl, LocalType, Operand, RegionOracle, Rvalue,
    Statement, Terminator,
};
use analycore::patch::Range;
use analycore::rewrite::{build_graph, rewrite, rewrite_for_param};

fn r(lo: u32, hi: u32) -> Range {
    Range::new(lo, hi)
}

fn owned(ty_span: Option<Range>, decl_span: Range) -> LocalDecl {
    LocalDecl { ty: LocalType::Owned, ty_span, decl_span }
}

fn shared_ref(region: Option<u32>, decl_span: Range) -> LocalDecl {
    LocalDecl { ty: LocalType::Ref { mutable: false, region }, ty_span: None, decl_span }
}

fn no_oracle() -> RegionOracle {
    RegionOracle { equal: Vec::new(), outlives: Vec::new() }
}

/// The body of `fn f(x: Type) -> Type { let y = x.clone(); y }`:
/// local 0 is the return place, local 1 is `x`, local 2 is `y`, and
/// local 3 is the reference temporary feeding the clone call.
fn single_clone_body() -> FnBody {
    FnBody {
        blocks: vec![
            BasicBlock {
                statements: vec![Statement::Assign {
                    left: 3,
                    rvalue: Rvalue::Ref { mutable: false, region: Some(1), place: 1 },
                }],
                terminator: Some(Terminator::Call {
                    is_clone: true,
                    args: vec![Operand::Moved { local: 3, span: r(32, 33) }],
                    destination: 2,
                    fn_span: r(32, 41),
                }),
            },
            BasicBlock {
                statements: vec![Statement::Assign {
                    left: 0,
                    rvalue: Rvalue::Use(Operand::Moved { local: 2, span: r(43, 44) }),
                }],
                terminator: Some(Terminator::Other),
            },
        ],
        local_decls: vec![
            owned(None, r(17, 21)),          // return place: the result type span
            owned(Some(r(8, 12)), r(5, 6)),  // x: explicit type annotation
            owned(None, r(28, 28)),          // y: untyped binding, no insertion site
            shared_ref(Some(0), r(32, 33)),  // the clone call's reference temporary
        ],
        arg_count: 1,
        generics_span: r(4, 4),
    }
}

// End-to-end: the clone call is stripped, the parameter and the
// return-type-affected declaration both become references under one
// fresh lifetime, and the (empty) generic-parameter list gains it.
#[test]
fn end_to_end_single_parameter_clone() {
    let source = b"fn f(x: Type) -> Type { let y = x.clone(); y }".to_vec();
    let body = single_clone_body();
    let oracle = RegionOracle { equal: vec![(1, 0)], outlives: Vec::new() };
    let expected = b"fn f<'a,>(x: &'a Type) -> &'a Type { let y = x; y }".to_vec();
    assert_eq!(rewrite(source.clone(), &body, &oracle), Some(expected.clone()));
    // Restricted to formal parameter 0 the same rewrite comes out, since
    // the clone's affected locals include that parameter.
    assert_eq!(rewrite_for_param(source, &body, &oracle, 0), Some(expected));
}

// Eligibility: a later mutable borrow of the clone's destination makes
// the duplication observably necessary, so the clone stays untouched.
#[test]
fn mutable_borrow_of_destination_blocks_elimination() {
    let source = b"fn f(x: Type) -> Type { let y = x.clone(); y }".to_vec();
    let mut body = single_clone_body();
    body.local_decls.push(LocalDecl {
        ty: LocalType::Ref { mutable: true, region: None },
        ty_span: None,
        decl_span: r(43, 44),
    });
    body.blocks[1].statements.insert(
        0,
        Statement::Assign { left: 4, rvalue: Rvalue::Ref { mutable: true, region: None, place: 2 } },
    );
    assert_eq!(rewrite(source, &body, &no_oracle()), None);
}

// Eligibility: a mutable borrow of the clone's source blocks it too.
#[test]
fn mutable_borrow_of_source_blocks_elimination() {
    let source = b"fn f(x: Type) -> Type { let y = x.clone(); y }".to_vec();
    let mut body = single_clone_body();
    body.local_decls.push(LocalDecl {
        ty: LocalType::Ref { mutable: true, region: None },
        ty_span: None,
        decl_span: r(43, 44),
    });
    // the borrow targets local 3, the clone's source
    body.blocks[1].statements.insert(
        0,
        Statement::Assign { left: 4, rvalue: Rvalue::Ref { mutable: true, region: None, place: 3 } },
    );
    assert_eq!(rewrite(source, &body, &no_oracle()), None);
}

// Moves and further copies of the cloned local do not disqualify it:
// only direct mutable aliasing does.  (The body above already moves the
// destination into the return place and is still rewritten.)
#[test]
fn moves_do_not_disqualify() {
    let source = b"fn f(x: Type) -> Type { let y = x.clone(); y }".to_vec();
    let body = single_clone_body();
    assert!(rewrite(source, &body, &no_oracle()).is_some());
}

/// The body of `fn g(x: T) -> T { let a = x.clone(); let b = x.clone(); a }`:
/// two independent clones of `x`, whose affected sets share `x`.
fn two_clone_body() -> FnBody {
    FnBody {
        blocks: vec![
            BasicBlock {
                statements: vec![Statement::Assign {
                    left: 4,
                    rvalue: Rvalue::Ref { mutable: false, region: None, place: 1 },
                }],
                terminator: Some(Terminator::Call {
                    is_clone: true,
                    args: vec![Operand::Moved { local: 4, span: r(26, 27) }],
                    destination: 2,
                    fn_span: r(26, 35),
                }),
            },
            BasicBlock {
                statements: vec![Statement::Assign {
                    left: 5,
                    rvalue: Rvalue::Ref { mutable: false, region: None, place: 1 },
                }],
                terminator: Some(Terminator::Call {
                    is_clone: true,
                    args: vec![Operand::Moved { local: 5, span: r(45, 46) }],
                    destination: 3,
                    fn_span: r(45, 54),
                }),
            },
            BasicBlock {
                statements: vec![Statement::Assign {
                    left: 0,
                    rvalue: Rvalue::Use(Operand::Moved { local: 2, span: r(56, 57) }),
                }],
                terminator: Some(Terminator::Other),
            },
        ],
        local_decls: vec![
            owned(None, r(14, 15)),         // return place
            owned(Some(r(8, 9)), r(5, 6)),  // x
            owned(None, r(22, 22)),         // a: untyped binding
            owned(None, r(41, 41)),         // b: untyped binding
            shared_ref(None, r(26, 27)),    // first clone's temporary
            shared_ref(None, r(45, 46)),    // second clone's temporary
        ],
        arg_count: 1,
        generics_span: r(4, 4),
    }
}

// Annotation unification: both clones affect `x`, so one annotation
// identifier serves the whole output — a single name in the generic
// list, applied once to each affected declaration.
#[test]
fn two_clones_of_one_local_share_one_annotation() {
    let source = b"fn g(x: T) -> T { let a = x.clone(); let b = x.clone(); a }".to_vec();
    let body = two_clone_body();
    let expected = b"fn g<'a,>(x: &'a T) -> &'a T { let a = x; let b = x; a }".to_vec();
    assert_eq!(rewrite(source, &body, &no_oracle()), Some(expected));
}

// The same scenario at the edit level: two removal edits, one annotation
// edit per affected declaration site, one generic-list edit — never two
// annotations on one declaration.
#[test]
fn unification_emits_one_edit_per_declaration() {
    let body = two_clone_body();
    let g = build_graph(&body, &no_oracle());
    let s = g.elim(&body.local_decls, body.generics_span, None);
    assert_eq!(s.replaces.len(), 5);
    // clone-removal edits, in encounter order
    assert_eq!((s.replaces[0].from, s.replaces[0].until), (27, 35));
    assert_eq!((s.replaces[1].from, s.replaces[1].until), (46, 54));
    // one annotation edit each for the return place and for x
    assert_eq!((s.replaces[2].from, s.replaces[2].until), (14, 14));
    assert_eq!(s.replaces[2].text, b"&'a ".to_vec());
    assert_eq!((s.replaces[3].from, s.replaces[3].until), (8, 8));
    assert_eq!(s.replaces[3].text, b"&'a ".to_vec());
    // one extension of the empty generic-parameter list
    assert_eq!((s.replaces[4].from, s.replaces[4].until), (4, 4));
    assert_eq!(s.replaces[4].text, b"<'a,>".to_vec());
}

/// Two formal parameters, each cloned independently.
fn two_parameter_body() -> FnBody {
    FnBody {
        blocks: vec![
            BasicBlock {
                statements: vec![Statement::Assign {
                    left: 3,
                    rvalue: Rvalue::Ref { mutable: false, region: None, place: 1 },
                }],
                terminator: Some(Terminator::Call {
                    is_clone: true,
                    args: vec![Operand::Moved { local: 3, span: r(20, 21) }],
                    destination: 4,
                    fn_span: r(20, 29),
                }),
            },
            BasicBlock {
                statements: vec![Statement::Assign {
                    left: 5,
                    rvalue: Rvalue::Ref { mutable: false, region: None, place: 2 },
                }],
                terminator: Some(Terminator::Call {
                    is_clone: true,
                    args: vec![Operand::Moved { local: 5, span: r(40, 41) }],
                    destination: 6,
                    fn_span: r(40, 49),
                }),
            },
        ],
        local_decls: vec![
            owned(None, r(0, 0)),            // return place, no insertion site
            owned(Some(r(6, 7)), r(5, 6)),   // first parameter
            owned(Some(r(10, 11)), r(9, 10)),// second parameter
            shared_ref(None, r(20, 21)),
            owned(None, r(14, 14)),          // first clone destination
            shared_ref(None, r(40, 41)),
            owned(None, r(16, 16)),          // second clone destination
        ],
        arg_count: 2,
        generics_span: r(4, 4),
    }
}

// Restricting the rewrite to one formal parameter eliminates only the
// clones tied to that parameter's local.
#[test]
fn restriction_to_one_parameter_keeps_other_clones() {
    let body = two_parameter_body();
    let g = build_graph(&body, &no_oracle());
    let all = g.elim(&body.local_decls, body.generics_span, None);
    assert_eq!(all.replaces.len(), 5);
    // independent eliminations get successive annotation letters
    assert_eq!(all.replaces[2].text, b"&'a ".to_vec());
    assert_eq!(all.replaces[3].text, b"&'b ".to_vec());
    assert_eq!(all.replaces[4].text, b"<'a,'b,>".to_vec());
    let first_only = g.elim(&body.local_decls, body.generics_span, Some(1));
    assert_eq!(first_only.replaces.len(), 3);
    assert_eq!((first_only.replaces[0].from, first_only.replaces[0].until), (21, 29));
    assert_eq!((first_only.replaces[1].from, first_only.replaces[1].until), (6, 6));
    assert_eq!(first_only.replaces[1].text, b"&'a ".to_vec());
    assert_eq!((first_only.replaces[2].from, first_only.replaces[2].until), (4, 4));
    let second_only = g.elim(&body.local_decls, body.generics_span, Some(2));
    assert_eq!(second_only.replaces.len(), 3);
    assert_eq!((second_only.replaces[0].from, second_only.replaces[0].until), (41, 49));
    assert_eq!((second_only.replaces[1].from, second_only.replaces[1].until), (10, 10));
}

// A body without any clone yields no change at all.
#[test]
fn body_without_clones_is_left_alone() {
    let body = FnBody {
        blocks: vec![BasicBlock {
            statements: vec![Statement::Assign {
                left: 0,
                rvalue: Rvalue::Use(Operand::Copied { local: 1, span: r(10, 11) }),
            }],
            terminator: Some(Terminator::Other),
        }],
        local_decls: vec![owned(None, r(0, 0)), owned(Some(r(6, 7)), r(5, 6))],
        arg_count: 1,
        generics_span: r(4, 4),
    };
    assert_eq!(rewrite(b"0123456789012345".to_vec(), &body, &no_oracle()), None);
}

// A body with no blocks at all yields no change.
#[test]
fn empty_body_is_left_alone() {
    let body = FnBody {
        blocks: Vec::new(),
        local_decls: vec![owned(None, r(0, 0))],
        arg_count: 0,
        generics_span: r(4, 4),
    };
    assert_eq!(rewrite(b"fn e() {}".to_vec(), &body, &no_oracle()), None);
}

// A clone call whose sole argument is a constant names no local, so no
// clone relation is recorded and nothing is rewritten.
#[test]
fn clone_of_a_constant_records_nothing() {
    let body = FnBody {
        blocks: vec![BasicBlock {
            statements: Vec::new(),
            terminator: Some(Terminator::Call {
                is_clone: true,
                args: vec![Operand::Constant],
                destination: 1,
                fn_span: r(5, 10),
            }),
        }],
        local_decls: vec![owned(None, r(0, 0)), owned(None, r(11, 11))],
        arg_count: 0,
        generics_span: r(2, 2),
    };
    let g = build_graph(&body, &no_oracle());
    assert_eq!(g.relations.len(), 0);
    assert_eq!(rewrite(b"0123456789012".to_vec(), &body, &no_oracle()), None);
}

// Arguments of a call to any other function are tracked as copy or move
// facts, with no target local.
#[test]
fn other_call_arguments_become_move_and_copy_facts() {
    let body = FnBody {
        blocks: vec![BasicBlock {
            statements: Vec::new(),
            terminator: Some(Terminator::Call {
                is_clone: false,
                args: vec![
                    Operand::Moved { local: 1, span: r(5, 6) },
                    Operand::Copied { local: 2, span: r(8, 9) },
                ],
                destination: 3,
                fn_span: r(4, 10),
            }),
        }],
        local_decls: vec![
            owned(None, r(0, 0)),
            owned(None, r(1, 2)),
            owned(None, r(2, 3)),
            owned(None, r(3, 4)),
        ],
        arg_count: 2,
        generics_span: r(0, 0),
    };
    let g = build_graph(&body, &no_oracle());
    assert_eq!(
        g.relations,
        vec![
            Relation::MoveUse { source: 1, target: None, range: r(5, 6) },
            Relation::CopyUse { source: 2, target: None, range: r(8, 9) },
        ]
    );
}

// Annotation names continue past the alphabet: the twenty-seventh
// elimination gets the two-letter name after `z`.
#[test]
fn annotation_names_continue_past_the_alphabet() {
    // local numbering: 0 the return place; 1..=count the cloned
    // parameters; then one reference temporary and one destination per
    // clone
    let count: u32 = 27;
    let mut table = vec![owned(None, r(0, 0))];
    for i in 0..count {
        let base = 100 * (i + 1);
        table.push(owned(Some(r(base, base + 1)), r(base + 2, base + 3)));
    }
    for i in 0..count {
        let base = 100 * (i + 1);
        table.push(shared_ref(None, r(base + 4, base + 5)));
        table.push(owned(None, r(base + 6, base + 6)));
    }
    let mut blocks = Vec::new();
    for i in 0..count {
        let source = 1 + i;
        let temp = 1 + count + 2 * i;
        let dest = temp + 1;
        let base = 100 * (i + 1);
        blocks.push(BasicBlock {
            statements: vec![Statement::Assign {
                left: temp,
                rvalue: Rvalue::Ref { mutable: false, region: None, place: source },
            }],
            terminator: Some(Terminator::Call {
                is_clone: true,
                args: vec![Operand::Moved { local: temp, span: r(base + 10, base + 11) }],
                destination: dest,
                fn_span: r(base + 10, base + 20),
            }),
        });
    }
    let body = FnBody { blocks, local_decls: table, arg_count: count, generics_span: r(4, 4) };
    let g = build_graph(&body, &no_oracle());
    let s = g.elim(&body.local_decls, body.generics_span, None);
    // per clone: one removal edit and one annotation edit, plus the
    // generic-list edit
    assert_eq!(s.replaces.len(), (2 * count + 1) as usize);
    // the annotation edits sit after all removal edits, in local order
    let last_annotation = &s.replaces[(2 * count) as usize - 1];
    assert_eq!(last_annotation.text, b"&'aa ".to_vec());
    let generics = &s.replaces[(2 * count) as usize];
    assert!(generics.text.starts_with(b"<'a,'b,"));
    assert!(generics.text.ends_with(b"'z,'aa,>"));
}

// A plain copy ties the two locals' declared types together, so the
// affected set of a later clone ripples through it to both sides.
#[test]
fn affected_set_propagates_through_copies() {
    // let y = x; ... y.clone()
    let body = FnBody {
        blocks: vec![BasicBlock {
            statements: vec![
                Statement::Assign {
                    left: 2,
                    rvalue: Rvalue::Use(Operand::Copied { local: 1, span: r(30, 31) }),
                },
                Statement::Assign {
                    left: 3,
                    rvalue: Rvalue::Ref { mutable: false, region: None, place: 2 },
                },
            ],
            terminator: Some(Terminator::Call {
                is_clone: true,
                args: vec![Operand::Moved { local: 3, span: r(40, 41) }],
                destination: 4,
                fn_span: r(40, 49),
            }),
        }],
        local_decls: vec![
            owned(None, r(0, 0)),            // return place, no site
            owned(Some(r(6, 7)), r(5, 6)),   // x
            owned(Some(r(20, 21)), r(19, 20)),  // y, explicitly typed
            shared_ref(None, r(40, 41)),
            owned(None, r(50, 50)),          // clone destination, no site
        ],
        arg_count: 1,
        generics_span: r(4, 4),
    };
    let g = build_graph(&body, &no_oracle());
    let s = g.elim(&body.local_decls, body.generics_span, None);
    // one removal, annotations on both x and y, one generics edit
    assert_eq!(s.replaces.len(), 4);
    assert_eq!((s.replaces[1].from, s.replaces[1].text.clone()), (6, b"&'a ".to_vec()));
    assert_eq!((s.replaces[2].from, s.replaces[2].text.clone()), (20, b"&'a ".to_vec()));
}

// The graph builder records the oracle's classification of each borrow:
// equal regions, a legal outlives relationship, an illegal one, and the
// conservative default when a region is not an inference variable.
#[test]
fn borrow_lifetimes_are_classified_by_the_oracle() {
    let decls = vec![
        owned(None, r(0, 0)),
        owned(None, r(1, 2)),                // the borrowed local
        shared_ref(Some(10), r(3, 4)),       // targets with declared region vars
        shared_ref(Some(11), r(5, 6)),
        shared_ref(Some(12), r(7, 8)),
        shared_ref(None, r(9, 10)),          // target without a region var
    ];
    let mk = |left: u32, region: Option<u32>| Statement::Assign {
        left,
        rvalue: Rvalue::Ref { mutable: false, region, place: 1 },
    };
    let body = FnBody {
        blocks: vec![BasicBlock {
            statements: vec![mk(2, Some(20)), mk(3, Some(21)), mk(4, Some(22)), mk(5, Some(23))],
            terminator: None,
        }],
        local_decls: decls,
        arg_count: 1,
        generics_span: r(0, 0),
    };
    let oracle = RegionOracle { equal: vec![(20, 10)], outlives: vec![(21, 11)] };
    let g = build_graph(&body, &oracle);
    let lifetimes: Vec<LifetimeRelation> = g
        .relations
        .iter()
        .map(|rel| match rel {
            Relation::ImmutableBorrow { lifetime, .. } => *lifetime,
            _ => panic!("only immutable borrows were recorded"),
        })
        .collect();
    assert_eq!(
        lifetimes,
        vec![
            LifetimeRelation::Equal,
            LifetimeRelation::ValidOutlive,
            LifetimeRelation::InvalidOutlive,
            LifetimeRelation::Assume,
        ]
    );
}

// Idempotence at the analysis level: the body of the already rewritten
// function holds no clone call, so a second pass changes nothing.
#[test]
fn rewritten_body_is_left_unchanged() {
    let rewritten = b"fn f<'a,>(x: &'a Type) -> &'a Type { let y = x; y }".to_vec();
    // `let y = x; y` lowers to moves only
    let body = FnBody {
        blocks: vec![BasicBlock {
            statements: vec![
                Statement::Assign {
                    left: 2,
                    rvalue: Rvalue::Use(Operand::Moved { local: 1, span: r(45, 46) }),
                },
                Statement::Assign {
                    left: 0,
                    rvalue: Rvalue::Use(Operand::Moved { local: 2, span: r(49, 50) }),
                },
            ],
            terminator: Some(Terminator::Other),
        }],
        local_decls: vec![
            owned(None, r(26, 34)),
            owned(Some(r(13, 21)), r(10, 11)),
            owned(None, r(41, 41)),
        ],
        arg_count: 1,
        generics_span: r(4, 9),
    };
    assert_eq!(rewrite(rewritten, &body, &no_oracle()), None);
}

// A clone call whose span starts before its argument's span (the
// `Type::clone(&x)` shape) loses the wrapping syntax on both sides of
// the argument, leaving exactly the operand expression.
#[test]
fn prefix_call_form_strips_both_gaps() {
    // "Type::clone(&x)" spanning [10, 25), argument "&x" at [22, 24)
    let body = FnBody {
        blocks: vec![BasicBlock {
            statements: vec![Statement::Assign {
                left: 2,
                rvalue: Rvalue::Ref { mutable: false, region: None, place: 1 },
            }],
            terminator: Some(Terminator::Call {
                is_clone: true,
                args: vec![Operand::Moved { local: 2, span: r(22, 24) }],
                destination: 3,
                fn_span: r(10, 25),
            }),
        }],
        local_decls: vec![
            owned(None, r(0, 0)),
            owned(None, r(0, 0)),
            shared_ref(None, r(22, 24)),
            owned(None, r(0, 0)),
        ],
        arg_count: 1,
        generics_span: r(4, 4),
    };
    let g = build_graph(&body, &no_oracle());
    let s = g.elim(&body.local_decls, body.generics_span, None);
    // two removal edits: [10, 22) before the argument, [24, 25) after it
    assert_eq!((s.replaces[0].from, s.replaces[0].until), (10, 22));
    assert_eq!(s.replaces[0].text, Vec::<u8>::new());
    assert_eq!((s.replaces[1].from, s.replaces[1].until), (24, 25));
    let out = s.apply(&b"0123456789Type::clone(&x)6789".to_vec());
    assert_eq!(out, b"0123456789&x6789".to_vec());
}
