use ruju::emit::{accept_module, emit_module};
use ruju::fixture::{Block, Fixture, Node, Operand, Stmt};
use ruju::graph::{dominates, idoms, positions, rpo, Cfg};
use ruju::relooper::Relooper;
use serde_json::Value;

// f(n): the sum of the squares of the integers from one up to n.
const FIXTURE: &str = r#"{
  "format": "ruju-aotc-fixture-1", "name": "f", "argtypes": ["Int64"], "rettype": "Int64",
  "blocks": [
    {"first": 1, "last": 1, "preds": [0], "succs": [2]},
    {"first": 2, "last": 5, "preds": [1, 3], "succs": [3, 4]},
    {"first": 6, "last": 9, "preds": [2], "succs": [2]},
    {"first": 10, "last": 10, "preds": [2], "succs": []}
  ],
  "stmts": [
    {"type": "Nothing", "stmt": {"k": "nothing"}},
    {"type": "Int64", "stmt": {"k": "phi", "edges": [1, 3],
      "values": [{"k": "const", "t": "Int64", "v": "0"}, {"k": "ssa", "id": 7}]}},
    {"type": "Int64", "stmt": {"k": "phi", "edges": [1, 3],
      "values": [{"k": "const", "t": "Int64", "v": "1"}, {"k": "ssa", "id": 8}]}},
    {"type": "Bool", "stmt": {"k": "call", "f": "sle_int",
      "args": [{"k": "ssa", "id": 3}, {"k": "arg", "n": 2}]}},
    {"type": "Nothing", "stmt": {"k": "gotoifnot", "cond": {"k": "ssa", "id": 4}, "dest": 4}},
    {"type": "Int64", "stmt": {"k": "call", "f": "mul_int",
      "args": [{"k": "ssa", "id": 3}, {"k": "ssa", "id": 3}]}},
    {"type": "Int64", "stmt": {"k": "call", "f": "add_int",
      "args": [{"k": "ssa", "id": 2}, {"k": "ssa", "id": 6}]}},
    {"type": "Int64", "stmt": {"k": "call", "f": "add_int",
      "args": [{"k": "ssa", "id": 3}, {"k": "const", "t": "Int64", "v": "1"}]}},
    {"type": "Nothing", "stmt": {"k": "goto", "dest": 2}},
    {"type": "Any", "stmt": {"k": "return", "val": {"k": "ssa", "id": 2}}}
  ]
}"#;

// g(n): as a sum of the integers from one up to n, each read back from a fresh cell.
const ALLOC_FIXTURE: &str = r#"{
  "format": "ruju-aotc-fixture-1", "name": "g", "argtypes": ["Int64"], "rettype": "Int64",
  "blocks": [
    {"first": 1, "last": 1, "preds": [0], "succs": [2]},
    {"first": 2, "last": 5, "preds": [1, 3], "succs": [3, 4]},
    {"first": 6, "last": 10, "preds": [2], "succs": [2]},
    {"first": 11, "last": 11, "preds": [2], "succs": []}
  ],
  "stmts": [
    {"type": "Nothing", "stmt": {"k": "nothing"}},
    {"type": "Int64", "stmt": {"k": "phi", "edges": [1, 3],
      "values": [{"k": "const", "t": "Int64", "v": "0"}, {"k": "ssa", "id": 8}]}},
    {"type": "Int64", "stmt": {"k": "phi", "edges": [1, 3],
      "values": [{"k": "const", "t": "Int64", "v": "1"}, {"k": "ssa", "id": 9}]}},
    {"type": "Bool", "stmt": {"k": "call", "f": "sle_int",
      "args": [{"k": "ssa", "id": 3}, {"k": "arg", "n": 2}]}},
    {"type": "Nothing", "stmt": {"k": "gotoifnot", "cond": {"k": "ssa", "id": 4}, "dest": 4}},
    {"type": "Base.RefValue{Int64}", "stmt": {"k": "new", "t": "Base.RefValue{Int64}",
      "args": [{"k": "ssa", "id": 3}]}},
    {"type": "Int64", "stmt": {"k": "getfield", "obj": {"k": "ssa", "id": 6}, "field": "x"}},
    {"type": "Int64", "stmt": {"k": "call", "f": "add_int",
      "args": [{"k": "ssa", "id": 2}, {"k": "ssa", "id": 7}]}},
    {"type": "Int64", "stmt": {"k": "call", "f": "add_int",
      "args": [{"k": "ssa", "id": 3}, {"k": "const", "t": "Int64", "v": "1"}]}},
    {"type": "Nothing", "stmt": {"k": "goto", "dest": 2}},
    {"type": "Any", "stmt": {"k": "return", "val": {"k": "ssa", "id": 2}}}
  ]
}"#;

fn string(v: &Value, key: &str) -> String {
    v.get(key).unwrap().as_str().unwrap().to_string()
}

fn number(v: &Value, key: &str) -> u32 {
    v.get(key).unwrap().as_u64().unwrap() as u32
}

fn list<'a>(v: &'a Value, key: &str) -> &'a Vec<Value> {
    v.get(key).unwrap().as_array().unwrap()
}

fn operand(v: &Value) -> Operand {
    match string(v, "k").as_str() {
        "ssa" => Operand::Ssa { id: number(v, "id") },
        "arg" => Operand::Arg { n: number(v, "n") },
        "const" => Operand::Const { t: string(v, "t"), v: string(v, "v") },
        _ => Operand::Nothing,
    }
}

fn node(v: &Value) -> Node {
    let operands = |key: &str| list(v, key).iter().map(operand).collect();
    match string(v, "k").as_str() {
        "phi" => Node::Phi {
            edges: list(v, "edges").iter().map(|e| e.as_u64().unwrap() as u32).collect(),
            values: operands("values"),
        },
        "call" => Node::Call { f: string(v, "f"), args: operands("args") },
        "new" => Node::New { t: string(v, "t"), args: operands("args") },
        "getfield" => {
            Node::GetField { obj: operand(v.get("obj").unwrap()), field: string(v, "field") }
        }
        "gotoifnot" => {
            Node::GotoIfNot { cond: operand(v.get("cond").unwrap()), dest: number(v, "dest") }
        }
        "goto" => Node::Goto { dest: number(v, "dest") },
        "return" => Node::Return { val: operand(v.get("val").unwrap()) },
        _ => Node::Nothing,
    }
}

// Decodes a fixture without derives.
fn decode(json: &str) -> Result<Fixture, Vec<u8>> {
    let v: Value = serde_json::from_str(json).map_err(|e| e.to_string().into_bytes())?;
    Ok(Fixture {
        format: string(&v, "format"),
        name: string(&v, "name"),
        argtypes: list(&v, "argtypes").iter().map(|t| t.as_str().unwrap().to_string()).collect(),
        rettype: string(&v, "rettype"),
        blocks: list(&v, "blocks")
            .iter()
            .map(|b| Block {
                first: number(b, "first"),
                last: number(b, "last"),
                preds: list(b, "preds").iter().map(|p| p.as_i64().unwrap() as i32).collect(),
                succs: list(b, "succs").iter().map(|p| p.as_u64().unwrap() as u32).collect(),
            })
            .collect(),
        stmts: list(&v, "stmts")
            .iter()
            .map(|s| Stmt { ty: string(s, "type"), stmt: node(s.get("stmt").unwrap()) })
            .collect(),
    })
}

fn parsed(json: &str) -> Fixture {
    let fx = Fixture::parse(decode(json)).unwrap();
    assert!(fx.is_well_formed());
    fx
}

fn words(r: Result<Vec<u8>, Vec<u8>>) -> String {
    String::from_utf8(r.unwrap_err()).unwrap()
}

#[test]
fn fixture_parses() {
    let fx = parsed(FIXTURE);
    assert_eq!(fx.name, "f");
    assert_eq!(fx.blocks.len(), 4);
    assert_eq!(fx.stmts.len(), 10);
}

#[test]
fn emits_valid_module() {
    let fx = parsed(FIXTURE);
    let bytes = emit_module(&fx).unwrap(); // includes validation
    let wat = wasmprinter::print_bytes(&bytes).unwrap();
    // The loop must be a real wasm loop over unboxed i64 locals, with the
    // branch structure the relooper owes us.
    assert!(wat.contains("loop"), "no loop emitted:\n{wat}");
    assert!(wat.contains("i64.mul"), "no unboxed multiply:\n{wat}");
    assert!(wat.contains("br 1") || wat.contains("br 0"), "no back edge:\n{wat}");
    assert!(wat.contains("(export \"f\""), "specsig not exported:\n{wat}");
    assert!(wat.contains("(export \"f_boxed\""), "wrapper not exported:\n{wat}");
    assert!(wat.contains("(import \"env\" \"memory\""), "memory not imported:\n{wat}");
}

#[test]
fn rejects_vocabulary_violations() {
    let fx = parsed(FIXTURE);
    let mut bad = fx;
    bad.rettype = "Float64".into();
    assert!(emit_module(&bad).is_err());
}

#[test]
fn emits_gcframe_for_allocating_function() {
    let fx = parsed(ALLOC_FIXTURE);
    let bytes = emit_module(&fx).unwrap(); // includes validation
    let wat = wasmprinter::print_bytes(&bytes).unwrap();
    // Allocation goes through the runtime; refs are rooted via the
    // shadow-stack ABI; field reads hit linear memory directly.
    assert!(wat.contains("rj_new_ref_int"), "no allocation import:\n{wat}");
    assert!(wat.contains("rj_gc_shadow_top_addr"), "no gcframe ABI:\n{wat}");
    assert!(wat.contains("rj_region_base"), "no region base:\n{wat}");
    assert!(wat.contains("i64.load"), "no direct field read:\n{wat}");
    assert!(wat.contains("i32.store"), "no root write-through:\n{wat}");
}

#[test]
fn emitted_text_is_exact() {
    let fx = parsed(FIXTURE);
    let bytes = emit_module(&fx).unwrap();
    let wat = wasmprinter::print_bytes(&bytes).unwrap();
    let body: Vec<&str> = wat
        .lines()
        .map(str::trim)
        .skip_while(|l| !l.starts_with("(func (;5;)"))
        .skip(1)
        .take_while(|l| !l.starts_with("(func"))
        .collect();
    let text = body.join("|");
    assert_eq!(
        text,
        "(local i64 i64 i32 i64 i64 i64)|i64.const 0|local.set 1|i64.const 1|local.set 2|\
         loop ;; label = @1|local.get 2|local.get 0|i64.le_s|local.set 3|local.get 3|\
         if ;; label = @2|local.get 2|local.get 2|i64.mul|local.set 4|local.get 1|local.get 4|\
         i64.add|local.set 5|local.get 2|i64.const 1|i64.add|local.set 6|local.get 5|\
         local.set 1|local.get 6|local.set 2|br 1 (;@1;)|else|local.get 1|return|end|end|\
         unreachable|)"
    );
}

#[test]
fn fixture_format_is_checked() {
    let mut fx = decode(FIXTURE).unwrap();
    fx.format = "other".to_string();
    assert_eq!(
        Fixture::parse(Ok(fx)).err().unwrap(),
        b"fixture format \"other\", expected \"ruju-aotc-fixture-1\"".to_vec()
    );
    let mut fx = decode(FIXTURE).unwrap();
    fx.blocks.clear();
    assert_eq!(Fixture::parse(Ok(fx)).err().unwrap(), b"empty fixture".to_vec());
    assert_eq!(Fixture::parse(Err(b"EOF".to_vec())).err().unwrap(), b"EOF".to_vec());
}

#[test]
fn malformed_fixtures_are_told() {
    let mut fx = parsed(FIXTURE);
    fx.blocks[1].succs[1] = 9;
    assert!(!fx.is_well_formed());
    let mut fx = parsed(FIXTURE);
    fx.blocks[3].preds.clear();
    assert!(!fx.is_well_formed(), "the blocks disagree about an edge");
    let mut fx = parsed(FIXTURE);
    fx.stmts[9].stmt = Node::Return { val: Operand::Ssa { id: 0 } };
    assert!(!fx.is_well_formed());
}

#[test]
fn malformed_fixtures_are_refused() {
    let mut fx = parsed(FIXTURE);
    fx.blocks[0].succs = vec![9];
    assert!(!fx.is_well_formed());
    assert_eq!(words(emit_module(&fx)), "malformed fixture");
    // The types are looked at first.
    fx.rettype = "Bool".to_string();
    assert_eq!(words(emit_module(&fx)), "rettype \"Bool\" outside the thin slice's vocabulary");
}

#[test]
fn compiler_errors_name_the_cause() {
    let mut fx = parsed(FIXTURE);
    fx.argtypes[0] = "Float64".to_string();
    assert_eq!(words(emit_module(&fx)), "argtype \"Float64\" outside the thin slice's vocabulary");
    let mut fx = parsed(FIXTURE);
    fx.rettype = "Bool".to_string();
    assert_eq!(words(emit_module(&fx)), "rettype \"Bool\" outside the thin slice's vocabulary");
    let mut fx = parsed(FIXTURE);
    fx.stmts[5].ty = "Any".to_string();
    assert_eq!(words(emit_module(&fx)), "statement %6 has unsupported type \"Any\"");
    let mut fx = parsed(FIXTURE);
    fx.stmts[5].stmt = Node::Call {
        f: "sdiv_int".to_string(),
        args: vec![Operand::Ssa { id: 3 }, Operand::Ssa { id: 3 }],
    };
    assert_eq!(words(emit_module(&fx)), "intrinsic \"sdiv_int\" outside the whitelist");
    let mut fx = parsed(FIXTURE);
    fx.stmts[9].stmt = Node::Return { val: Operand::Nothing };
    assert_eq!(words(emit_module(&fx)), "`nothing` used as a value");
    let mut fx = parsed(FIXTURE);
    fx.stmts[9].stmt = Node::Return { val: Operand::Arg { n: 1 } };
    assert_eq!(words(emit_module(&fx)), "argument _1 (#self#) is not representable");
    let mut fx = parsed(FIXTURE);
    fx.stmts[9].stmt = Node::Return { val: Operand::Ssa { id: 1 } };
    assert_eq!(words(emit_module(&fx)), "ssa %1 has no value local");
    let mut fx = parsed(FIXTURE);
    let (t, v) = ("Int64".to_string(), "12x".to_string());
    fx.stmts[9].stmt = Node::Return { val: Operand::Const { t, v } };
    assert_eq!(
        words(emit_module(&fx)),
        "bad Int64 literal \"12x\": invalid digit found in string"
    );
    let mut fx = parsed(FIXTURE);
    let (t, v) = ("Float64".to_string(), "1.5".to_string());
    fx.stmts[9].stmt = Node::Return { val: Operand::Const { t, v } };
    assert_eq!(words(emit_module(&fx)), "unsupported constant type \"Float64\"");
    let mut fx = parsed(FIXTURE);
    fx.stmts[2].stmt = Node::Phi {
        edges: vec![1, 3],
        values: vec![Operand::Arg { n: 2 }, Operand::Ssa { id: 2 }],
    };
    assert_eq!(words(emit_module(&fx)), "φ-swap hazard in block 2");
    let mut fx = parsed(ALLOC_FIXTURE);
    fx.stmts[5].stmt = Node::New { t: "Other".to_string(), args: Vec::new() };
    assert_eq!(words(emit_module(&fx)), ":new of \"Other\"/0 args outside the vocabulary");
    let mut fx = parsed(ALLOC_FIXTURE);
    fx.stmts[6].stmt =
        Node::GetField { obj: Operand::Ssa { id: 6 }, field: "y".to_string() };
    assert_eq!(words(emit_module(&fx)), "getfield :y outside the vocabulary");
}

#[test]
fn invalid_modules_are_refused() {
    // A boolean where an integer is returned passes the compiler, not the validator.
    let mut fx = parsed(FIXTURE);
    fx.stmts[9].stmt = Node::Return { val: Operand::Ssa { id: 4 } };
    assert!(words(emit_module(&fx)).starts_with("emitted module invalid: type mismatch"));
    assert_eq!(accept_module(vec![1, 2], None), Ok(vec![1, 2]));
    assert_eq!(
        accept_module(vec![1, 2], Some(b"why".to_vec())),
        Err(b"emitted module invalid: why".to_vec())
    );
}

fn graph(succs: &[&[usize]]) -> Cfg {
    let mut preds: Vec<Vec<usize>> = vec![Vec::new(); succs.len()];
    for (u, vs) in succs.iter().enumerate() {
        for &v in vs.iter() {
            if !preds[v].contains(&u) {
                preds[v].push(u);
            }
        }
    }
    Cfg { succs: succs.iter().map(|v| v.to_vec()).collect(), preds }
}

#[test]
fn orders_and_dominators() {
    // A diamond with a loop around it: 0 -> 1 -> {2, 3} -> 4 -> {1, 5}.
    let cfg = graph(&[&[1], &[2, 3], &[4], &[4], &[1, 5], &[]]);
    let order = rpo(&cfg);
    assert_eq!(order, vec![0, 1, 3, 2, 4, 5]);
    let pos = positions(&cfg, &order);
    assert_eq!(pos, vec![0, 1, 3, 2, 4, 5]);
    let idom = idoms(&cfg, &pos);
    assert_eq!(idom, vec![0, 0, 1, 1, 1, 4]);
    assert!(dominates(&cfg, &idom, &pos, 1, 5));
    assert!(dominates(&cfg, &idom, &pos, 4, 4));
    assert!(!dominates(&cfg, &idom, &pos, 2, 4));
    assert!(Relooper::new(&cfg).is_ok());
}

// How often a text occurs in the printed module.
fn occurs(json: &str, text: &str) -> usize {
    let bytes = emit_module(&parsed(json)).unwrap();
    wasmprinter::print_bytes(&bytes).unwrap().matches(text).count()
}

#[test]
fn each_block_and_edge_is_emitted_once() {
    assert_eq!(occurs(FIXTURE, "i64.mul"), 1);
    assert_eq!(occurs(FIXTURE, "i64.le_s"), 1);
    assert_eq!(occurs(DIAMOND, "i64.le_s"), 1);
    assert_eq!(occurs(DIAMOND, "i64.const 2"), 1);
}

#[test]
fn plans_refuse_bad_graphs() {
    // Block 2 cannot be reached.
    let cfg = graph(&[&[1], &[], &[1]]);
    assert_eq!(Relooper::new(&cfg).err().unwrap(), b"unreachable blocks in CFG".to_vec());
    // Two blocks that jump to each other, both entered from outside.
    let cfg = graph(&[&[1, 2], &[2], &[1]]);
    assert_eq!(
        Relooper::new(&cfg).err().unwrap(),
        b"irreducible CFG: back edge 2 -> 1".to_vec()
    );
}

// h(n): one where n is at most zero, else two.
const DIAMOND: &str = r#"{
  "format": "ruju-aotc-fixture-1", "name": "h", "argtypes": ["Int64"], "rettype": "Int64",
  "blocks": [
    {"first": 1, "last": 2, "preds": [0], "succs": [2, 3]},
    {"first": 3, "last": 3, "preds": [1], "succs": [4]},
    {"first": 4, "last": 4, "preds": [1], "succs": [4]},
    {"first": 5, "last": 6, "preds": [2, 3], "succs": []}
  ],
  "stmts": [
    {"type": "Bool", "stmt": {"k": "call", "f": "sle_int",
      "args": [{"k": "arg", "n": 2}, {"k": "const", "t": "Int64", "v": "0"}]}},
    {"type": "Nothing", "stmt": {"k": "gotoifnot", "cond": {"k": "ssa", "id": 1}, "dest": 3}},
    {"type": "Nothing", "stmt": {"k": "goto", "dest": 4}},
    {"type": "Nothing", "stmt": {"k": "nothing"}},
    {"type": "Int64", "stmt": {"k": "phi", "edges": [2, 3],
      "values": [{"k": "const", "t": "Int64", "v": "1"}, {"k": "const", "t": "Int64", "v": "2"}]}},
    {"type": "Any", "stmt": {"k": "return", "val": {"k": "ssa", "id": 5}}}
  ]
}"#;

// k(n): seven, whichever arm of the choice is taken.
const TWIN: &str = r#"{
  "format": "ruju-aotc-fixture-1", "name": "k", "argtypes": ["Int64"], "rettype": "Int64",
  "blocks": [
    {"first": 1, "last": 2, "preds": [0], "succs": [2, 2]},
    {"first": 3, "last": 4, "preds": [1, 1], "succs": []}
  ],
  "stmts": [
    {"type": "Bool", "stmt": {"k": "call", "f": "sle_int",
      "args": [{"k": "arg", "n": 2}, {"k": "const", "t": "Int64", "v": "0"}]}},
    {"type": "Nothing", "stmt": {"k": "gotoifnot", "cond": {"k": "ssa", "id": 1}, "dest": 2}},
    {"type": "Int64", "stmt": {"k": "phi", "edges": [1],
      "values": [{"k": "const", "t": "Int64", "v": "7"}]}},
    {"type": "Any", "stmt": {"k": "return", "val": {"k": "ssa", "id": 3}}}
  ]
}"#;

#[test]
fn both_arms_of_a_choice_may_lead_to_one_block() {
    assert!(parsed(TWIN).is_well_formed());
    assert_eq!(occurs(TWIN, "i64.const 7"), 2);
    assert_eq!(occurs(TWIN, "i64.le_s"), 1);
}

#[test]
fn branches_leave_the_frame_of_their_merge() {
    let fx = parsed(DIAMOND);
    assert!(fx.is_well_formed());
    let bytes = emit_module(&fx).unwrap();
    let wat = wasmprinter::print_bytes(&bytes).unwrap();
    let body: Vec<&str> = wat
        .lines()
        .map(str::trim)
        .skip_while(|l| !l.starts_with("(func (;5;)"))
        .skip(1)
        .take_while(|l| !l.starts_with("(func"))
        .collect();
    assert_eq!(
        body.join("|"),
        "(local i32 i64)|block ;; label = @1|local.get 0|i64.const 0|i64.le_s|local.set 1|\
         local.get 1|if ;; label = @2|i64.const 1|local.set 2|br 1 (;@1;)|else|i64.const 2|\
         local.set 2|br 1 (;@1;)|end|end|local.get 2|return|unreachable|)"
    );
}
