use paperx::builder::{build_command, is_pdf_path, locate_artifact, select_artifact, ArtifactError};
use paperx::engine::{engine_name, engine_slot, fallback_order, resolve, resolve_from, Engine, EngineNotFoundError};
use paperx::splice::{add_section, join_lines, line_is_end, line_is_marker, split_lines, SectionError};
use paperx::text::titleize;
use paperx::watch::WatchState;

const ALL: [Engine; 4] = [Engine::Tectonic, Engine::Latexmk, Engine::Pdflatex, Engine::Lualatex];

#[test]
fn fallback_orders_prefer_first_and_cover_all() {
    for pref in ALL {
        let order = fallback_order(pref);
        assert_eq!(order[0], pref);
        for e in ALL {
            assert!(order.contains(&e));
        }
        for i in 0..4usize {
            for j in (i + 1)..4usize {
                assert_ne!(order[i], order[j]);
            }
        }
    }
}

#[test]
fn resolve_from_takes_first_available_in_order() {
    // availability indexed as [tectonic, latexmk, pdflatex, lualatex]
    let avail = [false, false, true, true];
    assert_eq!(resolve_from(Engine::Tectonic, &avail), Ok(Engine::Pdflatex));
    assert_eq!(resolve_from(Engine::Lualatex, &avail), Ok(Engine::Lualatex));
    let only_latexmk = [false, true, false, false];
    for pref in ALL {
        assert_eq!(resolve_from(pref, &only_latexmk), Ok(Engine::Latexmk));
    }
    let all = [true, true, true, true];
    for pref in ALL {
        assert_eq!(resolve_from(pref, &all), Ok(pref));
    }
}

#[test]
fn resolve_from_fails_when_nothing_is_available() {
    let none = [false, false, false, false];
    for pref in ALL {
        assert_eq!(resolve_from(pref, &none), Err(EngineNotFoundError));
    }
}

#[test]
fn resolve_stays_within_the_candidate_list() {
    // What is installed here is unknown; the result must still come from
    // the fixed candidate list.
    match resolve(Engine::Tectonic) {
        Ok(e) => assert!(fallback_order(Engine::Tectonic).contains(&e)),
        Err(e) => assert_eq!(e, EngineNotFoundError),
    }
}

#[test]
fn engine_names_and_slots() {
    assert_eq!(engine_name(Engine::Tectonic), "tectonic");
    assert_eq!(engine_name(Engine::Latexmk), "latexmk");
    assert_eq!(engine_name(Engine::Pdflatex), "pdflatex");
    assert_eq!(engine_name(Engine::Lualatex), "lualatex");
    for (i, e) in ALL.iter().enumerate() {
        assert_eq!(engine_slot(*e), i);
    }
}

#[test]
fn build_command_shapes() {
    let c = build_command(Engine::Tectonic, "tex/main.tex", "build");
    assert_eq!(c.program, "tectonic");
    assert_eq!(
        c.args,
        vec!["-X", "compile", "tex/main.tex", "--outdir", "build", "--keep-logs", "--keep-intermediates"]
    );
    let c = build_command(Engine::Latexmk, "tex/main.tex", "out");
    assert_eq!(c.program, "latexmk");
    assert_eq!(c.args, vec!["-pdf", "-interaction=nonstopmode", "-output-directory=out", "tex/main.tex"]);
    let c = build_command(Engine::Pdflatex, "tex/main.tex", "out");
    assert_eq!(c.program, "pdflatex");
    assert_eq!(c.args, vec!["-output-directory=out", "tex/main.tex"]);
    let c = build_command(Engine::Lualatex, "tex/main.tex", "out");
    assert_eq!(c.program, "lualatex");
    assert_eq!(c.args, vec!["-output-directory=out", "tex/main.tex"]);
}

#[test]
fn pdf_extension_rules() {
    assert!(is_pdf_path("build/main.pdf"));
    assert!(is_pdf_path("a.pdf"));
    assert!(is_pdf_path("build/a.b.pdf"));
    assert!(!is_pdf_path(".pdf"));
    assert!(!is_pdf_path("build/.pdf"));
    assert!(!is_pdf_path("build/main.PDF"));
    assert!(!is_pdf_path("build/mainpdf"));
    assert!(!is_pdf_path("build/main.pdf.log"));
}

#[test]
fn select_prefers_conventional_path() {
    let entries = vec![
        "out".to_string(),
        "out/other.pdf".to_string(),
        "out/main.pdf".to_string(),
    ];
    assert_eq!(select_artifact("out", &entries), Ok("out/main.pdf".to_string()));
}

#[test]
fn select_scan_fallback_single_match() {
    let entries = vec![
        "out".to_string(),
        "out/log.txt".to_string(),
        "out/sub".to_string(),
        "out/sub/paper.pdf".to_string(),
        "out/x.aux".to_string(),
    ];
    assert_eq!(select_artifact("out", &entries), Ok("out/sub/paper.pdf".to_string()));
}

#[test]
fn select_fails_without_any_artifact() {
    let entries = vec!["out".to_string(), "out/log.txt".to_string()];
    assert!(select_artifact("out", &entries).is_err());
}

#[test]
fn locate_artifact_fails_on_missing_directory() {
    assert_eq!(
        locate_artifact("surely_missing_output_dir_for_tests"),
        Err(ArtifactError::ScanFailed)
    );
}

#[test]
fn marker_line_recognition() {
    assert!(line_is_marker("% paperx:sections"));
    assert!(line_is_marker("%paperx:sections"));
    assert!(line_is_marker("%   paperx:sections   "));
    assert!(line_is_marker("% paperx:sections\r"));
    assert!(!line_is_marker("% paperx:section"));
    assert!(!line_is_marker("% paperx:sectionsx"));
    assert!(!line_is_marker("paperx:sections"));
    assert!(!line_is_marker("% paperx:include"));
    assert!(!line_is_marker(""));
}

#[test]
fn end_line_recognition() {
    assert!(line_is_end("\\end{document}"));
    assert!(line_is_end("\\end{document} % trailing"));
    assert!(!line_is_end(" \\end{document}"));
    assert!(!line_is_end("\\end{doc}"));
}

#[test]
fn split_and_join_round_trip() {
    for doc in ["", "a", "a\nb", "a\nb\n", "\n\n", "x\n\ny\n"] {
        let lines = split_lines(doc);
        assert_eq!(join_lines(&lines), doc);
    }
    let lines = split_lines("a\nb\n");
    let texts: Vec<&str> = lines.iter().map(|l| l.as_str()).collect();
    assert_eq!(texts, vec!["a", "b", ""]);
}

const DOC_WITH_MARKER: &str = "\\documentclass{article}\n\\begin{document}\n% paperx:sections\n\n\\input{sections/introduction}\n\\end{document}\n";

#[test]
fn insert_section_after_marker() {
    let ins = add_section("related-work", DOC_WITH_MARKER, false).unwrap();
    assert_eq!(ins.fragment_path, "tex/sections/related-work.tex");
    assert_eq!(
        ins.fragment_text,
        "% Section: related-work\n\\section{Related Work}\nWrite here.\n"
    );
    assert_eq!(
        ins.new_doc,
        "\\documentclass{article}\n\\begin{document}\n% paperx:sections\n% paperx:include\n\\input{sections/related-work.tex}\n\n\\input{sections/introduction}\n\\end{document}\n"
    );
}

#[test]
fn insert_twice_reanchors_below_marker() {
    let first = add_section("related-work", DOC_WITH_MARKER, false).unwrap();
    let second = add_section("methods", &first.new_doc, false).unwrap();
    let expected = "\\documentclass{article}\n\\begin{document}\n% paperx:sections\n% paperx:include\n\\input{sections/methods.tex}\n% paperx:include\n\\input{sections/related-work.tex}\n\n\\input{sections/introduction}\n\\end{document}\n";
    assert_eq!(second.new_doc, expected);
    assert_eq!(second.new_doc.matches("% paperx:sections").count(), 1);
}

#[test]
fn insert_without_marker_goes_before_terminal_directive() {
    let doc = "\\documentclass{article}\n\\begin{document}\nBody.\n\\end{document}\n";
    let ins = add_section("appendix", doc, false).unwrap();
    assert_eq!(
        ins.new_doc,
        "\\documentclass{article}\n\\begin{document}\nBody.\n% paperx:include\n\\input{sections/appendix.tex}\n\\end{document}\n"
    );
    assert_eq!(ins.new_doc.matches("\\end{document}").count(), 1);
}

#[test]
fn insert_fails_when_fragment_exists() {
    let r = add_section("related-work", DOC_WITH_MARKER, true);
    assert_eq!(r.err(), Some(SectionError::AlreadyExists));
}

#[test]
fn insert_fails_on_document_without_anchors() {
    let r = add_section("intro", "hello\nworld\n", false);
    assert_eq!(r.err(), Some(SectionError::MalformedDocument));
}

#[test]
fn titleize_words() {
    assert_eq!(titleize("related-work"), "Related Work");
    assert_eq!(titleize("a_b c"), "A B C");
    assert_eq!(titleize("hello"), "Hello");
    assert_eq!(titleize(""), "");
    assert_eq!(titleize("x--y"), "X  Y");
}

#[test]
fn debounce_suppresses_bursts() {
    let mut w = WatchState::new(400);
    let mut triggers: u32 = 0;
    for t in [0u64, 100, 500] {
        if w.on_event(t) {
            triggers += 1;
        }
    }
    assert_eq!(triggers, 2);
    let mut w = WatchState::new(400);
    assert!(w.on_event(0));
    assert!(!w.on_event(100));
    assert!(w.on_event(500));
    assert_eq!(w.last_trigger_ms, Some(500));
    // exactly at the interval boundary the event is still suppressed
    let mut w = WatchState::new(400);
    assert!(w.on_event(10));
    assert!(!w.on_event(410));
    assert!(w.on_event(411));
}
