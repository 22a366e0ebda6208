//! The build-script side of the tool: the declarative script values, the
//! merge of script values with command-line overrides, the case-insensitive
//! glob patterns handed to the filesystem expansion, and the per-depth
//! inclusion filter that prunes the directory walk.

use vstd::prelude::*;

use crate::bytes::spec_upper_byte;
use crate::bytes::spec_lower_byte;
use crate::bytes::spec_eq_ignore_case;
use crate::bytes::upper_byte;
use crate::bytes::lower_byte;
use crate::bytes::is_ascii_letter;
use crate::bytes::eq_ignore_case;
use crate::bytes::push_bytes;

verus! {

/// A declarative build script: base directory, output path, comment, and the
/// glob patterns (relative to the base directory) selecting what to package.
pub struct VdfsScript {
    pub comment: Vec<u8>,
    pub base_dir: Vec<u8>,
    pub file_path: Vec<u8>,
    pub file_include_globs: Vec<Vec<u8>>,
}

/// Usage errors of the script resolver: a required path is neither in the
/// script nor overridden.
#[derive(Debug, PartialEq, Eq, Structural, Clone, Copy)]
pub enum ScriptError {
    MissingBaseDir,
    MissingOutputPath,
}

/// The inputs the tree builder and the serializer get, after overrides win
/// over script values.
pub struct ResolvedScript {
    pub base_dir: Vec<u8>,
    pub output_file: Vec<u8>,
    pub comment: Vec<u8>,
    pub patterns: Vec<Vec<u8>>,
}

/// The case-insensitive rewriting of a glob pattern: every ASCII letter
/// becomes a two-letter character class, every other byte is kept.
pub open spec fn spec_globify(s: Seq<u8>) -> Seq<u8>
    decreases s.len(),
{
    if s.len() == 0 {
        Seq::empty()
    } else {
        (if 0x41 <= s[0] && s[0] <= 0x5a || 0x61 <= s[0] && s[0] <= 0x7a {
            seq![0x5bu8, spec_lower_byte(s[0]), spec_upper_byte(s[0]), 0x5du8]
        } else {
            seq![s[0]]
        }) + spec_globify(s.skip(1))
    }
}

/// Rewrites a glob pattern so that every letter matches in either case:
/// `a.Txt` becomes `[aA].[tT][xX][tT]`.
pub fn case_insensitive_globify(input: &Vec<u8>) -> (r: Vec<u8>)
    ensures
        r@ == spec_globify(input@),
{
    let mut out: Vec<u8> = Vec::new();
    let mut i: usize = 0;
    proof {
        assert(input@.skip(0) =~= input@);
    }
    while i < input.len()
        invariant
            i <= input@.len(),
            spec_globify(input@) == out@ + spec_globify(input@.skip(i as int)),
        decreases input@.len() - i,
    {
        let ghost pre = out@;
        let b = input[i];
        if is_ascii_letter(b) {
            out.push(0x5b);
            out.push(lower_byte(b));
            out.push(upper_byte(b));
            out.push(0x5d);
            proof {
                assert(out@ =~= pre + seq![0x5bu8, spec_lower_byte(b), spec_upper_byte(b), 0x5du8]);
            }
        } else {
            out.push(b);
            proof {
                assert(out@ =~= pre + seq![b]);
            }
        }
        proof {
            assert(input@.skip(i as int)[0] == input@[i as int]);
            assert(input@.skip(i as int).skip(1) =~= input@.skip(i as int + 1));
        }
        i += 1;
    }
    proof {
        assert(spec_globify(input@.skip(i as int)) =~= Seq::<u8>::empty());
        assert(out@ + Seq::<u8>::empty() =~= out@);
    }
    out
}

/// Whether a name is accepted at a depth: the root depth (-1) always is;
/// otherwise some accepted path must carry this name, case-insensitively, at
/// exactly this depth.
pub fn is_on_level(filters: &Vec<Vec<Vec<u8>>>, search_term: &Vec<u8>, level: i32) -> (r: bool)
    ensures
        r == (level == -1 || (level >= 0 && exists|i: int|
            0 <= i < filters@.len() && (#[trigger] filters@[i])@.len() > level
                && spec_eq_ignore_case(filters@[i]@[level as int]@, search_term@))),
{
    if level == -1 {
        return true;
    }
    if level < 0 {
        return false;
    }
    let lv = level as usize;
    let mut i: usize = 0;
    while i < filters.len()
        invariant
            i <= filters@.len(),
            0 <= level,
            lv == level as int,
            forall|j: int|
                0 <= j < i ==> !((#[trigger] filters@[j])@.len() > level && spec_eq_ignore_case(
                    filters@[j]@[level as int]@,
                    search_term@,
                )),
        decreases filters@.len() - i,
    {
        let f = &filters[i];
        if f.len() > lv && eq_ignore_case(&f[lv], search_term) {
            return true;
        }
        i += 1;
    }
    false
}

/// Merges the script with the command-line overrides: an override wins over
/// the script value; a missing base directory or output path is a usage
/// error; each include glob becomes one case-insensitive pattern
/// `base/glob`.
pub fn resolve_script(
    script: &VdfsScript,
    base_dir_override: Option<&Vec<u8>>,
    output_file_override: Option<&Vec<u8>>,
    comment_override: Option<&Vec<u8>>,
) -> (r: Result<ResolvedScript, ScriptError>)
    ensures
        (script.base_dir@.len() == 0 && base_dir_override is None) <==> r == Result::<
            ResolvedScript,
            ScriptError,
        >::Err(ScriptError::MissingBaseDir),
        (!(script.base_dir@.len() == 0 && base_dir_override is None) && script.file_path@.len()
            == 0 && output_file_override is None) <==> r == Result::<
            ResolvedScript,
            ScriptError,
        >::Err(ScriptError::MissingOutputPath),
        r is Ok ==> ({
            let res = r->Ok_0;
            &&& res.base_dir@ == (match base_dir_override {
                Some(b) => b@,
                None => script.base_dir@,
            })
            &&& res.output_file@ == (match output_file_override {
                Some(o) => o@,
                None => script.file_path@,
            })
            &&& res.comment@ == (match comment_override {
                Some(c) => c@,
                None => script.comment@,
            })
            &&& res.patterns@.len() == script.file_include_globs@.len()
            &&& forall|i: int|
                0 <= i < res.patterns@.len() ==> (#[trigger] res.patterns@[i])@ == spec_globify(
                    match base_dir_override {
                        Some(b) => b@,
                        None => script.base_dir@,
                    },
                ) + seq![0x2fu8] + spec_globify(script.file_include_globs@[i]@)
        }),
{
    let has_base_override = match base_dir_override {
        Some(_) => true,
        None => false,
    };
    let has_output_override = match output_file_override {
        Some(_) => true,
        None => false,
    };
    if script.base_dir.len() == 0 && !has_base_override {
        return Err(ScriptError::MissingBaseDir);
    }
    if script.file_path.len() == 0 && !has_output_override {
        return Err(ScriptError::MissingOutputPath);
    }
    let base: &Vec<u8> = match base_dir_override {
        Some(b) => b,
        None => &script.base_dir,
    };
    let output: &Vec<u8> = match output_file_override {
        Some(o) => o,
        None => &script.file_path,
    };
    let comment: &Vec<u8> = match comment_override {
        Some(c) => c,
        None => &script.comment,
    };
    let base_glob = case_insensitive_globify(base);
    let mut patterns: Vec<Vec<u8>> = Vec::new();
    let mut i: usize = 0;
    while i < script.file_include_globs.len()
        invariant
            i <= script.file_include_globs@.len(),
            base_glob@ == spec_globify(base@),
            base@ == (match base_dir_override {
                Some(b) => b@,
                None => script.base_dir@,
            }),
            patterns@.len() == i,
            forall|j: int|
                0 <= j < i ==> (#[trigger] patterns@[j])@ == spec_globify(base@) + seq![0x2fu8]
                    + spec_globify(script.file_include_globs@[j]@),
        decreases script.file_include_globs@.len() - i,
    {
        let mut p: Vec<u8> = Vec::new();
        push_bytes(&mut p, &base_glob);
        p.push(0x2f);
        let g = case_insensitive_globify(&script.file_include_globs[i]);
        push_bytes(&mut p, &g);
        proof {
            assert(p@ =~= spec_globify(base@) + seq![0x2fu8] + spec_globify(
                script.file_include_globs@[i as int]@,
            ));
        }
        patterns.push(p);
        i += 1;
    }
    let mut out_base: Vec<u8> = Vec::new();
    push_bytes(&mut out_base, base);
    let mut out_output: Vec<u8> = Vec::new();
    push_bytes(&mut out_output, output);
    let mut out_comment: Vec<u8> = Vec::new();
    push_bytes(&mut out_comment, comment);
    proof {
        assert(out_base@ =~= base@);
        assert(out_output@ =~= output@);
        assert(out_comment@ =~= comment@);
    }
    Ok(
        ResolvedScript {
            base_dir: out_base,
            output_file: out_output,
            comment: out_comment,
            patterns,
        },
    )
}

} // verus!
