use vstd::prelude::*;
use vstd::string::*;
use crate::engine::{Engine, spec_name, engine_name};

verus! {

/// The engine subprocess succeeded but no artifact with the expected
/// extension was found under the output directory.
#[derive(Clone, Copy, PartialEq, Eq, Structural, Debug)]
pub struct ArtifactNotFoundError;

/// Why locating the artifact failed: no matching file, or the output
/// directory could not be walked.
#[derive(Clone, Copy, PartialEq, Eq, Structural, Debug)]
pub enum ArtifactError {
    NotFound,
    ScanFailed,
}

/// One subprocess invocation: a program name and its arguments, run from
/// the project root by the caller.
pub struct BuildCommand {
    pub program: String,
    pub args: Vec<String>,
}

/// The argument list for an engine: each engine has its own invocation
/// shape, differing in flags and in how the output directory is given.
pub open spec fn spec_args(e: Engine, main_tex: Seq<char>, outdir: Seq<char>) -> Seq<Seq<char>> {
    match e {
        Engine::Tectonic => seq![
            "-X"@,
            "compile"@,
            main_tex,
            "--outdir"@,
            outdir,
            "--keep-logs"@,
            "--keep-intermediates"@,
        ],
        Engine::Latexmk => seq![
            "-pdf"@,
            "-interaction=nonstopmode"@,
            "-output-directory="@ + outdir,
            main_tex,
        ],
        Engine::Pdflatex => seq!["-output-directory="@ + outdir, main_tex],
        Engine::Lualatex => seq!["-output-directory="@ + outdir, main_tex],
    }
}

/// Construct the exact command line for one build: the engine's binary
/// name as the program, and that engine's argument shape.
pub fn build_command(engine: Engine, main_tex: &str, outdir: &str) -> (r: BuildCommand)
    ensures
        r.program@ == spec_name(engine),
        r.args.deep_view() == spec_args(engine, main_tex@, outdir@),
{
    let program = engine_name(engine).to_owned();
    let mut args: Vec<String> = Vec::new();
    match engine {
        Engine::Tectonic => {
            args.push("-X".to_owned());
            args.push("compile".to_owned());
            args.push(main_tex.to_owned());
            args.push("--outdir".to_owned());
            args.push(outdir.to_owned());
            args.push("--keep-logs".to_owned());
            args.push("--keep-intermediates".to_owned());
        },
        Engine::Latexmk => {
            args.push("-pdf".to_owned());
            args.push("-interaction=nonstopmode".to_owned());
            args.push("-output-directory=".to_owned().concat(outdir));
            args.push(main_tex.to_owned());
        },
        Engine::Pdflatex => {
            args.push("-output-directory=".to_owned().concat(outdir));
            args.push(main_tex.to_owned());
        },
        Engine::Lualatex => {
            args.push("-output-directory=".to_owned().concat(outdir));
            args.push(main_tex.to_owned());
        },
    }
    proof {
        assert(args.deep_view() =~~= spec_args(engine, main_tex@, outdir@));
    }
    BuildCommand { program, args }
}

/// Whether a path names a file with the artifact extension: it ends in
/// ".pdf" with a nonempty file stem before it (so a bare ".pdf" file name
/// does not count, matching how std reads extensions).
pub open spec fn has_pdf_ext(p: Seq<char>) -> bool {
    &&& p.len() >= 5
    &&& p[p.len() - 4] == '.'
    &&& p[p.len() - 3] == 'p'
    &&& p[p.len() - 2] == 'd'
    &&& p[p.len() - 1] == 'f'
    &&& p[p.len() - 5] != '/'
}

/// Executable check for `has_pdf_ext`.
pub fn is_pdf_path(p: &str) -> (r: bool)
    ensures
        r == has_pdf_ext(p@),
{
    let n = p.unicode_len();
    if n < 5 {
        return false;
    }
    p.get_char(n - 4) == '.' && p.get_char(n - 3) == 'p' && p.get_char(n - 2) == 'd'
        && p.get_char(n - 1) == 'f' && p.get_char(n - 5) != '/'
}

/// The conventional artifact location for an output directory.
pub open spec fn conv_path(outdir: Seq<char>) -> Seq<char> {
    outdir + "/main.pdf"@
}

/// First scanned entry with the artifact extension, if any.
pub open spec fn first_pdf(entries: Seq<Seq<char>>) -> Option<Seq<char>>
    decreases entries.len(),
{
    if entries.len() == 0 {
        None
    } else if has_pdf_ext(entries[0]) {
        Some(entries[0])
    } else {
        first_pdf(entries.skip(1))
    }
}

/// What artifact selection returns: the conventional path when the scan
/// holds it, else the first scanned entry with the artifact extension,
/// else failure.
pub open spec fn spec_select(outdir: Seq<char>, entries: Seq<Seq<char>>) -> Result<
    Seq<char>,
    ArtifactNotFoundError,
> {
    if entries.contains(conv_path(outdir)) {
        Ok(conv_path(outdir))
    } else {
        match first_pdf(entries) {
            Some(p) => Ok(p),
            None => Err(ArtifactNotFoundError),
        }
    }
}

/// Pick the produced artifact out of the scanned entries of the output
/// directory, preferring the conventional location.
pub fn select_artifact(outdir: &str, entries: &Vec<String>) -> (r: Result<
    String,
    ArtifactNotFoundError,
>)
    ensures
        match r {
            Ok(p) => spec_select(outdir@, entries.deep_view()) == Ok::<
                Seq<char>,
                ArtifactNotFoundError,
            >(p@),
            Err(e) => spec_select(outdir@, entries.deep_view()) == Err::<
                Seq<char>,
                ArtifactNotFoundError,
            >(e),
        },
{
    let conv: String = outdir.to_owned().concat("/main.pdf");
    let n = entries.len();
    let mut i: usize = 0;
    while i < n
        invariant
            n == entries.len(),
            i <= n,
            conv@ == conv_path(outdir@),
            forall|k: int| 0 <= k < i ==> entries.deep_view()[k] != conv_path(outdir@),
        decreases n - i,
    {
        if entries[i].eq(&conv) {
            proof {
                assert(entries.deep_view()[i as int] == entries@[i as int]@);
                assert(entries.deep_view().contains(conv_path(outdir@)));
            }
            return Ok(conv);
        }
        i = i + 1;
    }
    assert(!entries.deep_view().contains(conv_path(outdir@)));
    let mut j: usize = 0;
    proof {
        assert(entries.deep_view().skip(0) =~~= entries.deep_view());
    }
    while j < n
        invariant
            n == entries.len(),
            j <= n,
            first_pdf(entries.deep_view()) == first_pdf(entries.deep_view().skip(j as int)),
            !entries.deep_view().contains(conv_path(outdir@)),
            conv@ == conv_path(outdir@),
        decreases n - j,
    {
        if is_pdf_path(entries[j].as_str()) {
            return Ok(entries[j].clone());
        }
        proof {
            assert(entries.deep_view().skip(j as int).skip(1) =~~= entries.deep_view().skip(
                j + 1,
            ));
        }
        j = j + 1;
    }
    Err(ArtifactNotFoundError)
}

#[verifier::external_type_specification]
#[verifier::external_body]
pub struct ExWalkdirError(walkdir::Error);

/// Relies on walkdir::WalkDir: walks a directory tree, yielding each
/// entry's path, or an error for an unreadable entry. What comes back
/// depends on the disk, so nothing is stated of it.
#[verifier::external_body]
fn walk_paths(root: &str) -> Result<Vec<String>, walkdir::Error> {
    let mut out = Vec::new();
    for entry in walkdir::WalkDir::new(root) {
        out.push(entry?.path().to_string_lossy().into_owned());
    }
    Ok(out)
}

proof fn lemma_first_pdf_has_ext(entries: Seq<Seq<char>>)
    ensures
        match first_pdf(entries) {
            Some(p) => has_pdf_ext(p),
            None => true,
        },
    decreases entries.len(),
{
    if entries.len() > 0 && !has_pdf_ext(entries[0]) {
        lemma_first_pdf_has_ext(entries.skip(1));
    }
}

proof fn lemma_conv_path_has_ext(outdir: Seq<char>)
    ensures
        has_pdf_ext(conv_path(outdir)),
{
    reveal_strlit("/main.pdf");
    let p = conv_path(outdir);
    assert(p[p.len() - 4] == "/main.pdf"@[5]);
    assert(p[p.len() - 3] == "/main.pdf"@[6]);
    assert(p[p.len() - 2] == "/main.pdf"@[7]);
    assert(p[p.len() - 1] == "/main.pdf"@[8]);
    assert(p[p.len() - 5] == "/main.pdf"@[4]);
}

/// Scan the output directory and pick the produced artifact: the
/// conventional location when present, else the first file found with the
/// artifact extension.
pub fn locate_artifact(outdir: &str) -> (r: Result<String, ArtifactError>)
    ensures
        r matches Ok(p) ==> has_pdf_ext(p@),
{
    match walk_paths(outdir) {
        Ok(entries) => match select_artifact(outdir, &entries) {
            Ok(p) => {
                proof {
                    lemma_first_pdf_has_ext(entries.deep_view());
                    lemma_conv_path_has_ext(outdir@);
                }
                Ok(p)
            },
            Err(_) => Err(ArtifactError::NotFound),
        },
        Err(_) => Err(ArtifactError::ScanFailed),
    }
}

/// The artifact of the default output directory, located by scan.
pub fn default_pdf_path() -> (r: Result<String, ArtifactError>)
    ensures
        r matches Ok(p) ==> has_pdf_ext(p@),
{
    locate_artifact("build")
}

proof fn lemma_first_pdf_at(entries: Seq<Seq<char>>, i: int)
    requires
        0 <= i < entries.len(),
        has_pdf_ext(entries[i]),
        forall|k: int| 0 <= k < i ==> !has_pdf_ext(entries[k]),
    ensures
        first_pdf(entries) == Some(entries[i]),
    decreases i,
{
    if i == 0 {
    } else {
        lemma_first_pdf_at(entries.skip(1), i - 1);
    }
}

/// Law: when the conventional path is absent from the scanned entries and
/// exactly one entry carries the artifact extension, selection returns
/// that entry's path.
pub proof fn lemma_select_single_artifact(outdir: Seq<char>, entries: Seq<Seq<char>>, i: int)
    requires
        !entries.contains(conv_path(outdir)),
        0 <= i < entries.len(),
        has_pdf_ext(entries[i]),
        forall|k: int| 0 <= k < entries.len() && k != i ==> !has_pdf_ext(entries[k]),
    ensures
        spec_select(outdir, entries) == Ok::<Seq<char>, ArtifactNotFoundError>(entries[i]),
{
    lemma_first_pdf_at(entries, i);
}

} // verus!
