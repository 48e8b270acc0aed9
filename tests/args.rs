use sv_uniq::config::{parse_args, parse_revision, show_info, ArgError, ConfigWarning, Override};

fn args(v: &[&str]) -> Vec<String> {
    v.iter().map(|s| s.to_string()).collect()
}

#[test]
fn defaults() {
    let (p, o) = parse_args(args(&["a.sv", "b.sv"])).ok().expect("ok");
    assert_eq!(p.file_list, vec![b"a.sv".to_vec(), b"b.sv".to_vec()]);
    assert_eq!(p.rev, 0);
    assert_eq!(p.pkg, b"default".to_vec());
    assert!(p.defines.is_empty() && p.inc_list.is_empty() && p.top_set.is_empty());
    assert!(o.is_empty());
    assert_eq!(
        show_info(&p),
        vec![ConfigWarning::PackageNotSet, ConfigWarning::RevisionNotSet, ConfigWarning::TopSetEmpty]
    );
}

#[test]
fn all_flags() {
    let a = args(&["+define+A", "+define+B=1=2", "+incdir+inc", "-t", "top", "-t", "top", "-r", "7", "-p", "core", "x.sv"]);
    let (p, o) = parse_args(a).ok().expect("ok");
    assert_eq!(p.defines.len(), 2);
    assert_eq!(p.defines[0].name, b"A".to_vec());
    assert_eq!(p.defines[0].value, None);
    assert_eq!(p.defines[1].name, b"B".to_vec());
    assert_eq!(p.defines[1].value, Some(b"1=2".to_vec()));
    assert_eq!(p.inc_list, vec![b"inc".to_vec()]);
    assert_eq!(p.top_set, vec![b"top".to_vec()]);
    assert_eq!(p.rev, 7);
    assert_eq!(p.pkg, b"core".to_vec());
    assert_eq!(p.file_list, vec![b"x.sv".to_vec()]);
    assert!(o.is_empty());
    assert!(show_info(&p).is_empty());
}

#[test]
fn later_define_wins() {
    let (p, _) = parse_args(args(&["+define+A=1", "+define+A=2"])).ok().expect("ok");
    assert_eq!(p.defines.len(), 1);
    assert_eq!(p.defines[0].value, Some(b"2".to_vec()));
}

#[test]
fn bare_incdir_is_a_file() {
    let (p, _) = parse_args(args(&["+incdir+"])).ok().expect("ok");
    assert!(p.inc_list.is_empty());
    assert_eq!(p.file_list, vec![b"+incdir+".to_vec()]);
}

#[test]
fn overrides_are_reported_and_last_wins() {
    let (p, o) = parse_args(args(&["-r", "1", "-p", "a", "-r", "2", "-p", "b"])).ok().expect("ok");
    assert_eq!(p.rev, 2);
    assert_eq!(p.pkg, b"b".to_vec());
    assert_eq!(o.len(), 2);
    assert!(matches!(o[0], Override::Revision { old: 1 }));
    match &o[1] {
        Override::Package { old } => assert_eq!(old, &b"a".to_vec()),
        _ => panic!("expected a package override"),
    }
}

#[test]
fn malformed_revision_is_fatal() {
    match parse_args(args(&["-r", "x1", "a.sv"])) {
        Err(ArgError::MalformedArgument { value }) => assert_eq!(value, b"x1".to_vec()),
        Ok(_) => panic!("expected an error"),
    }
}

#[test]
fn revision_literals() {
    assert_eq!(parse_revision(&b"42".to_vec()), Some(42));
    assert_eq!(parse_revision(&b"+5".to_vec()), Some(5));
    assert_eq!(parse_revision(&b"007".to_vec()), Some(7));
    assert_eq!(parse_revision(&b"".to_vec()), None);
    assert_eq!(parse_revision(&b"+".to_vec()), None);
    assert_eq!(parse_revision(&b"-1".to_vec()), None);
    assert_eq!(parse_revision(&b"1a".to_vec()), None);
    let max = usize::MAX.to_string();
    assert_eq!(parse_revision(&max.as_bytes().to_vec()), Some(usize::MAX));
    let over = format!("{}0", usize::MAX);
    assert_eq!(parse_revision(&over.as_bytes().to_vec()), None);
}
