use robojules::highlight::{
    calculate_file_diff, calculate_file_diff_inner, highlight_single_file, parse_diff, push_style_events,
    Highlighting, LinesWithEndings, TokenStyle,
};
use robojules::render::{cleanup_commands, DiffRenderCommand, DiffRenderFragment, Rgba};

fn texts(frags: &[DiffRenderFragment]) -> String {
    frags
        .iter()
        .filter_map(|f| match &f.1 {
            DiffRenderCommand::Text(t) => Some(t.as_str()),
            _ => None,
        })
        .collect()
}

fn describe(frags: &[DiffRenderFragment]) -> Vec<String> {
    frags
        .iter()
        .map(|f| match &f.1 {
            DiffRenderCommand::Text(t) => format!("{}:T({})", f.0, t),
            DiffRenderCommand::SetHighlight(b) => format!("{}:H{}", f.0, b),
            DiffRenderCommand::SetBold(b) => format!("{}:B{}", f.0, b),
            DiffRenderCommand::SetItalic(b) => format!("{}:I{}", f.0, b),
            DiffRenderCommand::SetUnderline(b) => format!("{}:U{}", f.0, b),
            DiffRenderCommand::SetColor(c) => format!("{}:C{},{},{},{}", f.0, c.r, c.g, c.b, c.a),
        })
        .collect()
}

#[test]
fn no_events_give_one_text_fragment() {
    let r = cleanup_commands("fn main() {}\n", &mut Vec::new());
    assert_eq!(describe(&r), vec!["0:T(fn main() {}\n)"]);
    let r = cleanup_commands("", &mut Vec::new());
    assert!(r.is_empty());
}

#[test]
fn events_are_woven_between_text_runs() {
    let mut raw = vec![
        DiffRenderFragment(4, DiffRenderCommand::SetBold(false)),
        DiffRenderFragment(2, DiffRenderCommand::SetBold(true)),
    ];
    let r = cleanup_commands("abcdef", &mut raw);
    assert_eq!(describe(&r), vec!["0:T(ab)", "2:Btrue", "2:T(cd)", "4:Bfalse", "4:T(ef)"]);
    assert_eq!(describe(&raw), vec!["2:Btrue", "4:Bfalse"]);
}

#[test]
fn same_offset_events_keep_order_and_text_is_kept() {
    let src = "abc\ndef";
    let mut raw = vec![
        DiffRenderFragment(3, DiffRenderCommand::SetBold(true)),
        DiffRenderFragment(0, DiffRenderCommand::SetHighlight(true)),
        DiffRenderFragment(7, DiffRenderCommand::SetHighlight(false)),
        DiffRenderFragment(3, DiffRenderCommand::SetItalic(true)),
        DiffRenderFragment(0, DiffRenderCommand::SetColor(Rgba { r: 1, g: 2, b: 3, a: 4 })),
        DiffRenderFragment(3, DiffRenderCommand::SetUnderline(true)),
    ];
    let r = cleanup_commands(src, &mut raw);
    assert_eq!(
        describe(&r),
        vec!["0:Htrue", "0:C1,2,3,4", "0:T(abc)", "3:Btrue", "3:Itrue", "3:Utrue", "3:T(\ndef)", "7:Hfalse"]
    );
    assert_eq!(texts(&r), src);
}

#[test]
fn many_random_offsets_keep_every_byte() {
    let src = "let x = 1;\nlet y = \"two\";\n";
    let n = src.len();
    let mut seed: usize = 7;
    for round in 0..50 {
        let mut raw = Vec::new();
        for k in 0..(round % 9) {
            seed = (seed * 1103515245 + 12345) % 2147483648;
            let off = if k == 0 { 0 } else if k == 1 { n } else { seed % (n + 1) };
            raw.push(DiffRenderFragment(off, DiffRenderCommand::SetHighlight(k % 2 == 0)));
        }
        let r = cleanup_commands(src, &mut raw);
        assert_eq!(texts(&r), src);
        let offsets: Vec<usize> = r.iter().map(|f| f.0).collect();
        assert!(offsets.windows(2).all(|w| w[0] <= w[1]));
    }
}

#[test]
fn offsets_count_bytes_of_multibyte_text() {
    let src = "hé€llo";
    let mut raw = vec![DiffRenderFragment(3, DiffRenderCommand::SetBold(true)), DiffRenderFragment(6, DiffRenderCommand::SetBold(false))];
    let r = cleanup_commands(src, &mut raw);
    assert_eq!(describe(&r), vec!["0:T(hé)", "3:Btrue", "3:T(€)", "6:Bfalse", "6:T(llo)"]);
}

#[test]
fn style_events_only_on_change() {
    let red = Rgba { r: 255, g: 0, b: 0, a: 255 };
    let toks = vec![
        TokenStyle { offset: 0, font_bits: 0, color: red },
        TokenStyle { offset: 3, font_bits: 1, color: red },
        TokenStyle { offset: 5, font_bits: 1 | 4, color: red },
        TokenStyle { offset: 8, font_bits: 2, color: Rgba { r: 0, g: 0, b: 0, a: 0 } },
    ];
    let mut out = Vec::new();
    push_style_events(&toks, &mut out);
    assert_eq!(
        describe(&out),
        vec!["0:C255,0,0,255", "3:Btrue", "5:Itrue", "8:Bfalse", "8:Ifalse", "8:Utrue", "8:C0,0,0,0"]
    );
}

#[test]
fn changed_ranges_become_highlights() {
    let mut out = Vec::new();
    parse_diff("abcdef", &vec![(1, 3), (4, 99), (5, 6)], &mut out);
    assert_eq!(describe(&out), vec!["1:Htrue", "3:Hfalse", "5:Htrue", "6:Hfalse"]);
    let mut out = Vec::new();
    parse_diff("é", &vec![(1, 2)], &mut out);
    assert!(out.is_empty());
}

#[test]
fn lines_keep_endings_and_offsets() {
    let mut lines = LinesWithEndings::from("a\nbc\n\nd");
    assert_eq!(lines.next(), Some(("a\n", 0)));
    assert_eq!(lines.next(), Some(("bc\n", 2)));
    assert_eq!(lines.next(), Some(("\n", 5)));
    assert_eq!(lines.next(), Some(("d", 6)));
    assert_eq!(lines.next(), None);
    let mut empty = LinesWithEndings::from("");
    assert_eq!(empty.next(), None);
}

#[test]
fn highlighting_styles_rust_source() {
    let hl = Highlighting::new();
    let src = "fn main() {\n    let x = \"hi\";\n}\n";
    let r = highlight_single_file(&hl, src, "rs");
    assert_eq!(texts(&r), src);
    assert!(r.iter().any(|f| matches!(f.1, DiffRenderCommand::SetColor(_))));
    assert!(r.len() > 1);
    assert!(highlight_single_file(&hl, "", "rs").is_empty());
}

#[test]
fn unknown_extension_falls_back_to_plain_text() {
    let hl = Highlighting::new();
    let r = highlight_single_file(&hl, "just text", "no-such-extension");
    assert_eq!(describe(&r), vec!["0:T(just text)"]);
}

#[test]
fn file_diff_sides() {
    let hl = Highlighting::new();
    let none: Vec<(usize, usize)> = Vec::new();
    let d = calculate_file_diff(&hl, None, Some("x = 1"), "py", &none, &none);
    assert!(d.old.is_empty());
    assert_eq!(texts(&d.new), "x = 1");
    let d = calculate_file_diff(&hl, Some("x = 1"), None, "py", &none, &none);
    assert!(d.new.is_empty());
    assert_eq!(texts(&d.old), "x = 1");
    let d = calculate_file_diff_inner(&hl, "a b", "a c", "zzz", &vec![(2, 3)], &vec![(2, 3)]);
    assert_eq!(describe(&d.old), vec!["0:T(a )", "2:Htrue", "2:T(b)", "3:Hfalse"]);
    assert_eq!(describe(&d.new), vec!["0:T(a )", "2:Htrue", "2:T(c)", "3:Hfalse"]);
}
