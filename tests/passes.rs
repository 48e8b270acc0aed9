use sv_uniq::config::{parse_args, Parameter};
use sv_uniq::fingerprint::{first_pass, salt_bytes, Loc, ModuleRecord, Node, PassOne, Role};
use sv_uniq::plan::{application_order, resolve, rewrite};

fn cksum(bytes: &[u8]) -> u32 {
    crc::Crc::<u32>::new(&crc::CRC_32_CKSUM).checksum(bytes)
}

/// Turns a small source text into the node stream of a pre-order walk:
/// whitespace and `//` comments are blank spans, `module NAME` opens a
/// declaration, and a statement `TYPE inst (...)` inside a module is an
/// instantiation of TYPE.
fn nodes(src: &str) -> Vec<Node> {
    let b = src.as_bytes();
    let mut spans: Vec<(usize, usize, u32, bool)> = Vec::new();
    let mut i = 0;
    let mut line = 1u32;
    while i < b.len() {
        let start = i;
        let start_line = line;
        let blank;
        if b[i].is_ascii_whitespace() {
            while i < b.len() && b[i].is_ascii_whitespace() {
                if b[i] == b'\n' {
                    line += 1;
                }
                i += 1;
            }
            blank = true;
        } else if b[i] == b'/' && i + 1 < b.len() && b[i + 1] == b'/' {
            while i < b.len() && b[i] != b'\n' {
                i += 1;
            }
            blank = true;
        } else if b[i].is_ascii_alphanumeric() || b[i] == b'_' {
            while i < b.len() && (b[i].is_ascii_alphanumeric() || b[i] == b'_') {
                i += 1;
            }
            blank = false;
        } else {
            i += 1;
            blank = false;
        }
        spans.push((start, i - start, start_line, blank));
    }
    let sig: Vec<usize> = (0..spans.len()).filter(|&k| !spans[k].3).collect();
    let text = |k: usize| &src[spans[k].0..spans[k].0 + spans[k].1];
    let loc = |k: usize| Loc { offset: spans[k].0, len: spans[k].1, line: spans[k].2 };
    let mut out = Vec::new();
    let mut in_module = false;
    let mut prev_sig: Option<&str> = None;
    for (pos, &k) in sig.iter().enumerate() {
        let w = text(k);
        // emit the blank spans that precede this token
        let first_blank = if pos == 0 { 0 } else { sig[pos - 1] + 1 };
        for j in first_blank..k {
            out.push(Node::Blank { loc: loc(j) });
            out.push(Node::Token { loc: loc(j), text: text(j).as_bytes().to_vec() });
        }
        if w == "module" && pos + 1 < sig.len() {
            let n = sig[pos + 1];
            out.push(Node::Declaration { loc: loc(n), name: text(n).as_bytes().to_vec() });
            in_module = true;
        } else if w == "endmodule" {
            in_module = false;
        } else if in_module && prev_sig == Some(";") && pos + 2 < sig.len() && text(sig[pos + 2]) == "(" {
            out.push(Node::Instance { loc: loc(k), name: w.as_bytes().to_vec() });
        }
        out.push(Node::Token { loc: loc(k), text: w.as_bytes().to_vec() });
        prev_sig = Some(w);
    }
    let last = if sig.is_empty() { 0 } else { sig[sig.len() - 1] + 1 };
    for j in last..spans.len() {
        out.push(Node::Blank { loc: loc(j) });
        out.push(Node::Token { loc: loc(j), text: text(j).as_bytes().to_vec() });
    }
    out
}

fn module<'a>(pass: &'a PassOne, name: &str) -> &'a ModuleRecord {
    pass.modules.iter().find(|m| m.name == name.as_bytes()).expect("module")
}

fn param(pkg: &str, rev: &str) -> Parameter {
    let args = vec!["-p".to_string(), pkg.to_string(), "-r".to_string(), rev.to_string()];
    parse_args(args).ok().expect("arguments").0
}

#[test]
fn fingerprint_is_salted_checksum_of_significant_tokens() {
    let files = vec![nodes("module foo;\n  // note\nendmodule\n")];
    let pass = first_pass(&b"default".to_vec(), 0, &files);
    assert_eq!(pass.modules.len(), 1);
    let m = module(&pass, "foo");
    assert_eq!(m.fingerprint, cksum(b"default0modulefoo;endmodule"));
    assert!(!m.redefined);
}

#[test]
fn same_input_same_fingerprint() {
    let files = vec![nodes("module foo(input a);\nassign x = a;\nendmodule\n")];
    let a = first_pass(&b"pkg".to_vec(), 3, &files);
    let b = first_pass(&b"pkg".to_vec(), 3, &files);
    assert_eq!(module(&a, "foo").fingerprint, module(&b, "foo").fingerprint);
    assert_eq!(a.renames[0].len(), b.renames[0].len());
}

#[test]
fn blank_lines_and_comments_do_not_change_fingerprint() {
    let plain = vec![nodes("module foo;\nwire w;\nendmodule\n")];
    let spaced = vec![nodes("module   foo ;\n\n\n// comment\nwire  w;   // more\n\nendmodule")];
    let a = first_pass(&b"default".to_vec(), 0, &plain);
    let b = first_pass(&b"default".to_vec(), 0, &spaced);
    assert_eq!(module(&a, "foo").fingerprint, module(&b, "foo").fingerprint);
}

#[test]
fn token_change_changes_fingerprint() {
    let a = first_pass(&b"default".to_vec(), 0, &vec![nodes("module foo;\nwire w;\nendmodule\n")]);
    let b = first_pass(&b"default".to_vec(), 0, &vec![nodes("module foo;\nwire v;\nendmodule\n")]);
    assert_ne!(module(&a, "foo").fingerprint, module(&b, "foo").fingerprint);
}

#[test]
fn package_changes_every_fingerprint() {
    let files = vec![
        nodes("module foo;\nendmodule\nmodule top;\nfoo u0 ();\nendmodule\n"),
        nodes("module leaf;\nendmodule\n"),
    ];
    let a = rewrite(&param("A", "1"), &files).0;
    let b = rewrite(&param("B", "1"), &files).0;
    for name in ["foo", "top", "leaf"] {
        assert_ne!(module(&a, name).fingerprint, module(&b, name).fingerprint);
    }
    assert_eq!(module(&a, "leaf").fingerprint, cksum(b"A1moduleleaf;endmodule"));
}

#[test]
fn revision_changes_fingerprint() {
    let files = vec![nodes("module foo;\nendmodule\n")];
    let a = first_pass(&b"p".to_vec(), 1, &files);
    let b = first_pass(&b"p".to_vec(), 2, &files);
    assert_ne!(module(&a, "foo").fingerprint, module(&b, "foo").fingerprint);
    assert_eq!(module(&b, "foo").fingerprint, cksum(b"p2modulefoo;endmodule"));
}

#[test]
fn salt_is_package_then_decimal_revision() {
    assert_eq!(salt_bytes(&b"pkg".to_vec(), 0), b"pkg0".to_vec());
    assert_eq!(salt_bytes(&b"pkg".to_vec(), 1207), b"pkg1207".to_vec());
    assert_eq!(salt_bytes(&Vec::new(), usize::MAX), usize::MAX.to_string().into_bytes());
}

#[test]
fn roles_of_declarations_and_instantiations() {
    let files = vec![nodes("module top;\nfoo u0 ();\nbar u1 ();\nendmodule\n")];
    let pass = first_pass(&b"default".to_vec(), 0, &files);
    let r = &pass.renames[0];
    assert_eq!(r.len(), 3);
    let decl: Vec<_> = r.iter().filter(|x| x.role == Role::Declaration).collect();
    let refs: Vec<_> = r.iter().filter(|x| x.role == Role::Reference).collect();
    assert_eq!(decl.len(), 1);
    assert_eq!(decl[0].name, b"top".to_vec());
    assert_eq!(decl[0].loc, Loc { offset: 7, len: 3, line: 1 });
    assert_eq!(refs.len(), 2);
    assert_eq!(refs[0].name, b"foo".to_vec());
    assert_eq!(refs[0].loc, Loc { offset: 12, len: 3, line: 2 });
    assert_eq!(refs[1].name, b"bar".to_vec());
    for i in 0..r.len() {
        for j in i + 1..r.len() {
            assert_ne!(r[i].loc, r[j].loc);
        }
    }
}

#[test]
fn same_span_twice_keeps_one_instruction() {
    let l = Loc { offset: 7, len: 3, line: 1 };
    let files = vec![vec![
        Node::Instance { loc: l, name: b"foo".to_vec() },
        Node::Declaration { loc: l, name: b"foo".to_vec() },
    ]];
    let pass = first_pass(&b"default".to_vec(), 0, &files);
    assert_eq!(pass.renames[0].len(), 1);
    assert_eq!(pass.renames[0][0].role, Role::Declaration);
}

#[test]
fn forward_reference_resolves_in_either_order() {
    let decl = nodes("module foo;\nendmodule\n");
    let user = nodes("module top;\nfoo u0 ();\nendmodule\n");
    for files in [vec![decl.clone(), user.clone()], vec![user.clone(), decl.clone()]] {
        let pass = first_pass(&b"default".to_vec(), 0, &files);
        let patches = resolve(&pass).ok().expect("resolved");
        let foo = module(&pass, "foo").fingerprint;
        let all: Vec<_> = patches.iter().flatten().filter(|p| p.name == b"foo".to_vec()).collect();
        assert_eq!(all.len(), 2);
        assert!(all.iter().all(|p| p.fingerprint == foo));
    }
}

#[test]
fn redefinition_keeps_second_fingerprint() {
    let files = vec![
        nodes("module bar;\nwire a;\nendmodule\n"),
        nodes("module bar;\nwire b;\nendmodule\n"),
    ];
    let pass = first_pass(&b"default".to_vec(), 0, &files);
    assert_eq!(pass.modules.len(), 1);
    let m = module(&pass, "bar");
    assert!(m.redefined);
    assert_eq!(m.fingerprint, cksum(b"default0modulebar;wireb;endmodule"));
}

#[test]
fn redefinition_within_one_file() {
    let files = vec![nodes("module bar;\nendmodule\nmodule bar;\nwire c;\nendmodule\n")];
    let pass = first_pass(&b"default".to_vec(), 0, &files);
    let m = module(&pass, "bar");
    assert!(m.redefined);
    assert_eq!(m.fingerprint, cksum(b"default0modulebar;wirec;endmodule"));
}

#[test]
fn undeclared_module_is_unresolved() {
    let files = vec![
        nodes("module foo;\nendmodule\n"),
        nodes("module top;\nfoo u0 ();\nbaz u1 ();\nendmodule\n"),
    ];
    let (_, plan) = rewrite(&param("default", "0"), &files);
    let e = plan.err().expect("unresolved");
    assert_eq!(e.name, b"baz".to_vec());
    assert_eq!(e.file, 1);
    assert_eq!(e.loc, Loc { offset: 23, len: 3, line: 3 });
}

#[test]
fn empty_file_set() {
    let pass = first_pass(&b"default".to_vec(), 0, &Vec::new());
    assert!(pass.modules.is_empty());
    assert!(pass.renames.is_empty());
    assert_eq!(resolve(&pass).ok().expect("nothing to resolve").len(), 0);
}

#[test]
fn tokens_before_first_module_are_not_counted() {
    let a = first_pass(&b"default".to_vec(), 0, &vec![nodes("`timescale 1ns\nmodule foo;\nendmodule\n")]);
    assert_eq!(module(&a, "foo").fingerprint, cksum(b"default0modulefoo;endmodule"));
}

#[test]
fn patches_apply_from_highest_offset() {
    let files = vec![nodes("module top;\nfoo u0 ();\nbar u1 ();\nfoo u2 ();\nendmodule\nmodule foo;\nendmodule\nmodule bar;\nendmodule\n")];
    let pass = first_pass(&b"default".to_vec(), 0, &files);
    let patches = resolve(&pass).ok().expect("resolved");
    let ordered = application_order(patches[0].clone());
    assert_eq!(ordered.len(), patches[0].len());
    let offsets: Vec<usize> = ordered.iter().map(|p| p.loc.offset).collect();
    let mut expected: Vec<usize> = patches[0].iter().map(|p| p.loc.offset).collect();
    expected.sort();
    expected.reverse();
    assert_eq!(offsets, expected);
    assert_eq!(offsets.len(), 6);
    assert_eq!(ordered[0].name, b"bar".to_vec());
    assert_eq!(ordered[0].role, Role::Declaration);
}

#[test]
fn first_unresolved_reference_is_named() {
    let files = vec![
        nodes("module a;\nqux u0 ();\nendmodule\n"),
        nodes("module b;\nbaz u0 ();\nendmodule\n"),
    ];
    let pass = first_pass(&b"default".to_vec(), 0, &files);
    let e = resolve(&pass).err().expect("unresolved");
    assert_eq!(e.file, 0);
    assert_eq!(e.name, b"qux".to_vec());
}
