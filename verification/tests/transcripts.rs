use install_nothing::stages::autotools::{self, AutotoolsLine};
use AutotoolsLine::{Check, Compile, Diagnostic, Fatal, Link, Plain, Status, Warning};
use install_nothing::stages::cmake::{self, CmakeLine};
use install_nothing::ui::style::{Span, Tone};

fn views(spans: &[Span]) -> Vec<(String, Tone)> {
    spans.iter().map(|s| (s.text.clone(), s.tone)).collect()
}

#[test]
fn autotools_classification() {
    assert_eq!(autotools::classify("checking for gcc... yes", true), (Check, false));
    assert_eq!(autotools::classify("configure: error: no acceptable C compiler", false), (Fatal, true));
    assert_eq!(autotools::classify("  make: *** [all] Error 2", false), (Fatal, false));
    assert_eq!(autotools::classify("foo.c:3:1: error: unknown type", false), (Diagnostic, true));
    assert_eq!(autotools::classify("    3 | int x", true), (Diagnostic, true));
    assert_eq!(autotools::classify("lib/x.c:9: warning: unused", false), (Warning, false));
    assert_eq!(autotools::classify("  CCLD     src/ls", false), (Link, false));
    assert_eq!(autotools::classify("  LD       libfoo.so", false), (Link, false));
    assert_eq!(autotools::classify("  CC       lib/a.o", false), (Compile, false));
    assert_eq!(autotools::classify("  AR       lib/libcoreutils.a", false), (Compile, false));
    assert_eq!(autotools::classify("config.status: creating Makefile", true), (Status, false));
    assert_eq!(autotools::classify("configure: creating ./config.status", false), (Status, false));
    assert_eq!(autotools::classify("make  all-recursive", false), (Plain, false));
}

#[test]
fn autotools_render_check() {
    assert_eq!(
        views(&autotools::render_check("checking for gcc... yes")),
        vec![
            ("checking for gcc".to_string(), Tone::Dimmed),
            ("... ".to_string(), Tone::Plain),
            ("yes".to_string(), Tone::Green)
        ]
    );
    assert_eq!(
        views(&autotools::render_check("checking x... cached... no")),
        vec![
            ("checking x... cached".to_string(), Tone::Dimmed),
            ("... ".to_string(), Tone::Plain),
            ("no".to_string(), Tone::Yellow)
        ]
    );
    assert_eq!(
        views(&autotools::render_check("checking y... library not found here")),
        vec![
            ("checking y".to_string(), Tone::Dimmed),
            ("... ".to_string(), Tone::Plain),
            ("library not found here".to_string(), Tone::Yellow)
        ]
    );
    assert_eq!(
        views(&autotools::render_check("checking whether build works")),
        vec![("checking whether build works".to_string(), Tone::Dimmed)]
    );
}

#[test]
fn cmake_split_progress() {
    assert_eq!(
        cmake::split_progress("[ 42%] Building C object lib/escape.c.o"),
        Some(("42".to_string(), "Building C object lib/escape.c.o".to_string()))
    );
    assert_eq!(
        cmake::split_progress("  [100%] Linking C executable curl "),
        Some(("100".to_string(), "Linking C executable curl".to_string()))
    );
    assert_eq!(
        cmake::split_progress("[ 4.5%]x"),
        Some(("4.5".to_string(), "x".to_string()))
    );
    assert_eq!(cmake::split_progress("[abc%] nope"), None);
    assert_eq!(cmake::split_progress("-- Looking for foo"), None);
    assert_eq!(cmake::split_progress("[ 42] no percent"), None);
    for text in ["1e3", "INF", "-nan", "+.5", "5.", "2E-2", "infinity"] {
        let line = format!("[{}%] m", text);
        assert!(cmake::split_progress(&line).is_some(), "{}", text);
        assert!(text.parse::<f32>().is_ok());
    }
    for text in [".", "e5", "1e", "1.2.3", "--1", "1e+", "infi", ""] {
        let line = format!("[{}%] m", text);
        assert!(cmake::split_progress(&line).is_none(), "{}", text);
        assert!(text.parse::<f32>().is_err());
    }
}

#[test]
fn cmake_render_probe() {
    assert_eq!(
        views(&cmake::render_probe("-- Looking for poll.h - found")),
        vec![
            ("-- Looking for poll.h".to_string(), Tone::Dimmed),
            (" - ".to_string(), Tone::Plain),
            ("found".to_string(), Tone::Green)
        ]
    );
    assert_eq!(
        views(&cmake::render_probe("-- Performing Test HAVE_X - Failed")),
        vec![
            ("-- Performing Test HAVE_X".to_string(), Tone::Dimmed),
            (" - ".to_string(), Tone::Plain),
            ("Failed".to_string(), Tone::Green)
        ]
    );
    assert_eq!(
        views(&cmake::render_probe("-- Looking for a - b - not found")),
        vec![
            ("-- Looking for a - b".to_string(), Tone::Dimmed),
            (" - ".to_string(), Tone::Plain),
            ("not found".to_string(), Tone::Yellow)
        ]
    );
    assert_eq!(
        views(&cmake::render_probe("-- Configuring done")),
        vec![("-- Configuring done".to_string(), Tone::Dimmed)]
    );
}

#[test]
fn cmake_classification() {
    match cmake::classify("[ 42%] Building C object x.o", true) {
        (CmakeLine::Progress { percent, message }, false) => {
            assert_eq!(percent, "42");
            assert_eq!(message, "Building C object x.o");
        }
        _ => panic!("expected a progress line"),
    }
    match cmake::classify("[100%] Linking C shared library libcurl.so", false) {
        (CmakeLine::Link { message }, false) => {
            assert_eq!(message, "Linking C shared library libcurl.so")
        }
        _ => panic!("expected a link line"),
    }
    assert!(matches!(
        cmake::classify("lib/escape.c:9:3: error: call to undeclared function", false),
        (CmakeLine::Error, true)
    ));
    assert!(matches!(cmake::classify("    9 |   foo();", true), (CmakeLine::Diagnostic, true)));
    assert!(matches!(cmake::classify("CMake Error at x", false), (CmakeLine::Diagnostic, true)));
    assert!(matches!(cmake::classify("x: warning: y", false), (CmakeLine::Warning, false)));
    assert!(matches!(cmake::classify("policy is deprecated", false), (CmakeLine::Warning, false)));
    assert!(matches!(cmake::classify("-- Found Perl", true), (CmakeLine::Probe, false)));
    assert!(matches!(cmake::classify("--no space", true), (CmakeLine::Plain, false)));
    assert!(matches!(cmake::classify("[x] odd", true), (CmakeLine::Plain, false)));
    assert!(matches!(cmake::classify("gmake: Leaving", false), (CmakeLine::Plain, false)));
}

#[test]
fn rendering_keeps_the_text() {
    for line in [
        "checking for a... b... c",
        "no dots here",
        "checking x... ",
        "... leading",
    ] {
        let text: String = autotools::render_check(line).iter().map(|s| s.text.as_str()).collect();
        assert_eq!(text, line);
    }
    for line in ["-- a - b - c", "-- plain", " - ", "x - "] {
        let text: String = cmake::render_probe(line).iter().map(|s| s.text.as_str()).collect();
        assert_eq!(text, line);
    }
}
