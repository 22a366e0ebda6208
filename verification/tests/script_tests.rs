use vdfs::bytes::{eq_ignore_case, pad_name, push_le32, read_le32};
use vdfs::script::{case_insensitive_globify, is_on_level, resolve_script, ScriptError, VdfsScript};

fn b(s: &str) -> Vec<u8> {
    s.as_bytes().to_vec()
}

fn script(comment: &str, base: &str, out: &str, globs: &[&str]) -> VdfsScript {
    VdfsScript {
        comment: b(comment),
        base_dir: b(base),
        file_path: b(out),
        file_include_globs: globs.iter().map(|g| b(g)).collect(),
    }
}

#[test]
fn globify_brackets_every_letter() {
    assert_eq!(case_insensitive_globify(&b("a.Txt")), b("[aA].[tT][xX][tT]"));
    assert_eq!(case_insensitive_globify(&b("*.d90")), b("*.[dD]90"));
    assert_eq!(case_insensitive_globify(&b("")), b(""));
}

#[test]
fn case_insensitive_glob_matches_either_case() {
    // the rewritten pattern matches the differently-cased path
    let pattern = String::from_utf8(case_insensitive_globify(&b("Data/*.txt"))).unwrap();
    let p = glob::Pattern::new(&pattern).unwrap();
    assert!(p.matches("data/FILE.TXT"));
    // and the raw pattern matches under the same options the tool passes
    let raw = glob::Pattern::new("Data/*.txt").unwrap();
    let opts = glob::MatchOptions {
        case_sensitive: false,
        require_literal_separator: false,
        require_literal_leading_dot: false,
    };
    assert!(raw.matches_with("data/FILE.TXT", opts));
}

#[test]
fn is_on_level_accepts_root_and_matches_depth() {
    let filters: Vec<Vec<Vec<u8>>> = vec![
        vec![b("data"), b("sounds"), b("theme.wav")],
        vec![b("data"), b("video")],
    ];
    assert!(is_on_level(&filters, &b("anything"), -1));
    assert!(is_on_level(&filters, &b("DATA"), 0));
    assert!(is_on_level(&filters, &b("Sounds"), 1));
    assert!(is_on_level(&filters, &b("video"), 1));
    assert!(is_on_level(&filters, &b("THEME.WAV"), 2));
    assert!(!is_on_level(&filters, &b("video"), 0));
    assert!(!is_on_level(&filters, &b("music"), 1));
    assert!(!is_on_level(&filters, &b("data"), 3));
    assert!(!is_on_level(&filters, &b("data"), -2));
}

#[test]
fn resolve_script_requires_base_dir() {
    let s = script("c", "", "out.vdf", &[]);
    match resolve_script(&s, None, None, None) {
        Err(e) => assert_eq!(e, ScriptError::MissingBaseDir),
        Ok(_) => panic!("base directory was missing"),
    }
    // an override supplies it
    let base = b("base");
    assert!(resolve_script(&s, Some(&base), None, None).is_ok());
}

#[test]
fn resolve_script_requires_output_path() {
    let s = script("c", "base", "", &[]);
    match resolve_script(&s, None, None, None) {
        Err(e) => assert_eq!(e, ScriptError::MissingOutputPath),
        Ok(_) => panic!("output path was missing"),
    }
    let out = b("o.vdf");
    assert!(resolve_script(&s, None, Some(&out), None).is_ok());
}

#[test]
fn resolve_script_overrides_win() {
    let s = script("from script", "scriptbase", "script.vdf", &["*.txt"]);
    let base = b("cli");
    let out = b("cli.vdf");
    let comment = b("from cli");
    let r = resolve_script(&s, Some(&base), Some(&out), Some(&comment)).unwrap();
    assert_eq!(r.base_dir, b("cli"));
    assert_eq!(r.output_file, b("cli.vdf"));
    assert_eq!(r.comment, b("from cli"));
    assert_eq!(r.patterns.len(), 1);
    assert_eq!(r.patterns[0], b("[cC][lL][iI]/*.[tT][xX][tT]"));
}

#[test]
fn resolve_script_keeps_script_values_without_overrides() {
    let s = script("note", "Base", "out.vdf", &["a", "b/*"]);
    let r = resolve_script(&s, None, None, None).unwrap();
    assert_eq!(r.base_dir, b("Base"));
    assert_eq!(r.output_file, b("out.vdf"));
    assert_eq!(r.comment, b("note"));
    assert_eq!(r.patterns.len(), 2);
    assert_eq!(r.patterns[0], b("[bB][aA][sS][eE]/[aA]"));
    assert_eq!(r.patterns[1], b("[bB][aA][sS][eE]/[bB]/*"));
}

#[test]
fn byte_helpers_fold_case_and_pad() {
    assert!(eq_ignore_case(&b("Theme.WAV"), &b("theme.wav")));
    assert!(!eq_ignore_case(&b("a"), &b("b")));
    assert!(!eq_ignore_case(&b("a"), &b("ab")));
    let p = pad_name(&b("abc"));
    assert_eq!(p.len(), 64);
    assert_eq!(&p[..3], b"ABC");
    assert!(p[3..].iter().all(|x| *x == 0x20));
}

#[test]
fn le32_round_trips() {
    let mut v: Vec<u8> = Vec::new();
    push_le32(&mut v, 0xdead_beef);
    push_le32(&mut v, 296);
    assert_eq!(v, vec![0xef, 0xbe, 0xad, 0xde, 0x28, 0x01, 0x00, 0x00]);
    assert_eq!(read_le32(&v, 0), 0xdead_beef);
    assert_eq!(read_le32(&v, 4), 296);
}
