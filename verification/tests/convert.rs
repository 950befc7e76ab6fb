//! Positions, edits and tokens on the wire.

use ropey::Rope;
use zerosyntax::completion::{Completion, CompletionKind};
use zerosyntax::convert::{
    apply_change, negotiate_encoding, offset_to_position, position_to_offset, sem_kind_index,
    semantic_legend, semantic_tokens_splice, span_to_range, to_lsp_completion,
    to_lsp_document_symbol, to_lsp_folding_range, to_lsp_semantic_tokens, DocSymbol, Position,
    PositionEnc, Range, SemanticToken, SemanticTokensEdit, SymKind,
};
use zerosyntax::semantic::{SemKind, SemToken};
use zerosyntax::syntax::Span;

/// Applies a splice the way a client would.
fn apply_splice(prev: &[SemanticToken], edit: &SemanticTokensEdit) -> Vec<SemanticToken> {
    assert_eq!(edit.start % 5, 0, "token-aligned");
    assert_eq!(edit.delete_count % 5, 0, "token-aligned");
    let start = (edit.start / 5) as usize;
    let del = (edit.delete_count / 5) as usize;
    let mut out = prev[..start].to_vec();
    out.extend(edit.data.iter().copied());
    out.extend(prev[start + del..].iter().copied());
    out
}

fn at(line: u32, character: u32) -> Position {
    Position { line, character }
}

#[test]
fn model_completion_is_tagged_but_not_eagerly_rendered() {
    let item = to_lsp_completion(
        Completion {
            label: "AVTank".into(),
            kind: CompletionKind::W3dModel,
            detail: Some("W3D model".into()),
            documentation: None,
            insert: None,
        },
        false,
    );
    assert_eq!(item.preview.as_deref(), Some("AVTank"));
    assert!(item.documentation.is_none());
}

#[test]
fn completion_documentation_is_sent_as_markdown() {
    let markdown = "```ini\nBehavior = PhysicsBehavior ModuleTag_Physics\n```";
    let item = to_lsp_completion(
        Completion {
            label: "ModuleTag_Physics".into(),
            kind: CompletionKind::Reference,
            detail: Some("module tag".into()),
            documentation: Some(markdown.into()),
            insert: None,
        },
        false,
    );
    assert_eq!(item.documentation.as_deref(), Some(markdown));
    assert!(item.preview.is_none());
}

#[test]
fn snippets_go_to_clients_that_support_them() {
    let slot = || Completion {
        label: "Behavior".into(),
        kind: CompletionKind::Field,
        detail: None,
        documentation: None,
        insert: Some("Behavior = $0".into()),
    };
    let with = to_lsp_completion(slot(), true);
    assert_eq!(with.insert_text.as_deref(), Some("Behavior = $0"));
    assert!(with.trigger_suggest);
    let without = to_lsp_completion(slot(), false);
    assert_eq!(without.insert_text, None);
    assert!(!without.trigger_suggest);
}

#[test]
fn splice_reproduces_next_from_prev() {
    let tok = |dl, ds, len, ty| SemanticToken {
        delta_line: dl,
        delta_start: ds,
        length: len,
        token_type: ty,
        token_modifiers_bitset: 0,
    };
    let prev = vec![tok(0, 0, 6, 0), tok(0, 7, 4, 1), tok(1, 0, 3, 0)];
    for next in [
        vec![tok(0, 0, 6, 0), tok(0, 7, 9, 1), tok(1, 0, 3, 0)], // middle change
        vec![tok(0, 0, 6, 0), tok(1, 0, 3, 0)],                  // deletion
        prev.clone(),                                            // no change
        vec![],                                                  // everything gone
        vec![tok(0, 0, 6, 0), tok(0, 7, 4, 1), tok(0, 5, 2, 2), tok(1, 0, 3, 0)], // insert
    ] {
        let edit = semantic_tokens_splice(&prev, &next);
        assert_eq!(apply_splice(&prev, &edit), next);
    }
}

#[test]
fn position_offset_round_trip() {
    let rope = Rope::from_str("Weapon AK47\n  PrimaryDamage = 50.0\nEnd\n");
    for enc in [PositionEnc::Utf8, PositionEnc::Utf16] {
        for byte in [0u32, 7, 14, 30, 35] {
            let pos = offset_to_position(&rope, byte, enc);
            assert_eq!(
                position_to_offset(&rope, pos, enc),
                byte,
                "byte {byte} via {pos:?} ({enc:?})"
            );
        }
    }
}

#[test]
fn position_on_second_line() {
    let rope = Rope::from_str("Weapon AK47\n  PrimaryDamage = 50.0\nEnd\n");
    // The 'P' of PrimaryDamage is at line 1, char 2.
    let byte = "Weapon AK47\n  ".len() as u32;
    assert_eq!(offset_to_position(&rope, byte, PositionEnc::Utf16), at(1, 2));
    assert_eq!(
        span_to_range(&rope, Span::new(0, byte), PositionEnc::Utf16),
        Range { start: at(0, 0), end: at(1, 2) }
    );
}

#[test]
fn non_ascii_columns_differ_by_encoding() {
    // é is 2 UTF-8 bytes / 1 UTF-16 unit, 🚀 is 4 UTF-8 bytes / 2 UTF-16 units.
    let rope = Rope::from_str("; \u{e9}moji \u{1F680} x\nEnd\n");
    let byte_of_x = "; \u{e9}moji \u{1F680} ".len() as u32;
    let p8 = offset_to_position(&rope, byte_of_x, PositionEnc::Utf8);
    let p16 = offset_to_position(&rope, byte_of_x, PositionEnc::Utf16);
    assert_eq!(p8.character, byte_of_x);
    assert_eq!(p16.character, "; émoji ".chars().count() as u32 + 2 + 1);
    // Both round-trip to the same byte.
    assert_eq!(position_to_offset(&rope, p8, PositionEnc::Utf8), byte_of_x);
    assert_eq!(position_to_offset(&rope, p16, PositionEnc::Utf16), byte_of_x);
}

#[test]
fn position_clamps_to_line_content() {
    let rope = Rope::from_str("abc\r\ndef\n");
    // A character past the end clamps to the line length, not into the \r\n.
    assert_eq!(position_to_offset(&rope, at(0, 99), PositionEnc::Utf16), 3);
    // A line past the end clamps to the last line.
    assert_eq!(position_to_offset(&rope, at(99, 0), PositionEnc::Utf16), 9);
}

#[test]
fn apply_change_replaces_range() {
    let mut rope = Rope::from_str("Weapon AK47\n  PrimaryDamage = 50.0\nEnd\n");
    // Replace "50.0" with "75.5".
    let range = Range { start: at(1, 18), end: at(1, 22) };
    apply_change(&mut rope, Some(range), "75.5", PositionEnc::Utf16);
    assert_eq!(rope.to_string(), "Weapon AK47\n  PrimaryDamage = 75.5\nEnd\n");
}

#[test]
fn apply_change_across_lines_and_at_eof() {
    let mut rope = Rope::from_str("Weapon A\nEnd\nWeapon B\nEnd\n");
    // Delete the whole second block including its leading newline.
    let range = Range { start: at(2, 0), end: at(4, 0) };
    apply_change(&mut rope, Some(range), "", PositionEnc::Utf16);
    assert_eq!(rope.to_string(), "Weapon A\nEnd\n");
    // Insert at the end.
    let at_eof = Range { start: at(2, 0), end: at(2, 0) };
    apply_change(&mut rope, Some(at_eof), "Weapon C\nEnd\n", PositionEnc::Utf16);
    assert_eq!(rope.to_string(), "Weapon A\nEnd\nWeapon C\nEnd\n");
    // A change without a range replaces everything.
    apply_change(&mut rope, None, "GameData\nEnd\n", PositionEnc::Utf16);
    assert_eq!(rope.to_string(), "GameData\nEnd\n");
}

#[test]
fn apply_change_crlf_document() {
    let mut rope = Rope::from_str("Weapon AK47\r\n  PrimaryDamage = 50.0\r\nEnd\r\n");
    let range = Range { start: at(1, 18), end: at(1, 22) };
    apply_change(&mut rope, Some(range), "75.5", PositionEnc::Utf16);
    assert_eq!(rope.to_string(), "Weapon AK47\r\n  PrimaryDamage = 75.5\r\nEnd\r\n");
}

#[test]
fn negotiates_utf8_when_offered() {
    assert_eq!(negotiate_encoding(&vec![]), (PositionEnc::Utf16, "utf-16"));
    let offered = vec!["utf-16".to_string(), "utf-8".to_string()];
    assert_eq!(negotiate_encoding(&offered), (PositionEnc::Utf8, "utf-8"));
    assert_eq!(PositionEnc::default(), PositionEnc::Utf16);
}

fn ref_byte(text: &str, line: u32, ch: u32, enc: PositionEnc) -> usize {
    let lines: Vec<&str> = text.split('\n').collect();
    let line = (line as usize).min(lines.len() - 1);
    let start: usize = lines[..line].iter().map(|l| l.len() + 1).sum();
    let content = lines[line].strip_suffix('\r').unwrap_or(lines[line]);
    match enc {
        PositionEnc::Utf8 => {
            let mut t = start + (ch as usize).min(content.len());
            while !text.is_char_boundary(t) {
                t -= 1;
            }
            t
        }
        PositionEnc::Utf16 => {
            let mut cu = 0usize;
            for (i, c) in content.char_indices() {
                if cu >= ch as usize {
                    return start + i;
                }
                cu += c.len_utf16();
            }
            start + content.len()
        }
    }
}

fn ref_apply(text: &str, r: Option<Range>, new: &str, enc: PositionEnc) -> String {
    match r {
        None => new.to_string(),
        Some(r) => {
            let s = ref_byte(text, r.start.line, r.start.character, enc);
            let e = ref_byte(text, r.end.line, r.end.character, enc).max(s);
            format!("{}{}{}", &text[..s], new, &text[e..])
        }
    }
}

/// Random sequences of edits on the rope must give the text that a reference
/// on strings gives.
#[test]
fn random_delta_sequences_match_reference() {
    let snippets = [
        "",
        "X",
        "\u{e9}",
        "\n",
        "\r\n",
        "Weapon Z\nEnd\n",
        "; comment \u{e9}\n",
        " = 5.0",
        "End",
    ];
    let mut state = 0x2545F4914F6CDD1Du64;
    let mut next = move || {
        state = state.wrapping_mul(6364136223846793005).wrapping_add(1442695040888963407);
        (state >> 33) as u32
    };

    for enc in [PositionEnc::Utf8, PositionEnc::Utf16] {
        for round in 0..200 {
            let mut expected = String::from("Weapon AK47\n  PrimaryDamage = 50.0\nEnd\n");
            let mut rope = Rope::from_str(&expected);
            for edit in 0..8 {
                let text = snippets[(next() % snippets.len() as u32) as usize];
                let range = if next() % 10 == 0 {
                    None
                } else {
                    let a = at(next() % 8, next() % 40);
                    let b = at(next() % 8, next() % 40);
                    let (s, e) = if ref_byte(&expected, a.line, a.character, enc)
                        <= ref_byte(&expected, b.line, b.character, enc)
                    {
                        (a, b)
                    } else {
                        (b, a)
                    };
                    Some(Range { start: s, end: e })
                };
                expected = ref_apply(&expected, range, text, enc);
                apply_change(&mut rope, range, text, enc);
                assert_eq!(
                    rope.to_string(),
                    expected,
                    "diverged ({enc:?}, round {round}, edit {edit}, range {range:?}, text {text:?})"
                );
            }
        }
    }
}

#[test]
fn delta_encodes_tokens_across_lines() {
    let rope = Rope::from_str("Weapon AK47\nEnd\n");
    let tokens = vec![
        SemToken { span: Span::new(0, 6), kind: SemKind::Keyword },
        SemToken { span: Span::new(7, 11), kind: SemKind::BlockName },
        SemToken { span: Span::new(12, 15), kind: SemKind::Keyword },
    ];
    let lsp = to_lsp_semantic_tokens(&rope, &tokens, PositionEnc::Utf16);
    assert_eq!(lsp[0].delta_line, 0);
    assert_eq!(lsp[0].delta_start, 0);
    assert_eq!(lsp[0].length, 6);
    assert_eq!(lsp[1].delta_line, 0);
    assert_eq!(lsp[1].delta_start, 7);
    assert_eq!(lsp[2].delta_line, 1);
    assert_eq!(lsp[2].delta_start, 0); // a new line resets the column
    assert_eq!(lsp[2].length, 3);
}

#[test]
fn every_token_kind_has_a_place_in_the_legend() {
    let legend = semantic_legend();
    for kind in [SemKind::Keyword, SemKind::BlockName, SemKind::Number, SemKind::Comment] {
        assert!((sem_kind_index(kind) as usize) < legend.len());
    }
}

#[test]
fn folding_needs_two_lines() {
    let rope = Rope::from_str("Weapon A\n  ClipSize = 1\nEnd\n");
    assert_eq!(
        to_lsp_folding_range(&rope, Span::new(0, 27), PositionEnc::Utf16),
        Some((0, 2))
    );
    assert_eq!(to_lsp_folding_range(&rope, Span::new(0, 8), PositionEnc::Utf16), None);
}

#[test]
fn symbols_keep_their_children() {
    let rope = Rope::from_str("Object Tank\n  Body = ActiveBody Tag\n  End\nEnd\n");
    let symbol = DocSymbol {
        name: "Tank".into(),
        detail: Some("Object".into()),
        kind: SymKind::Block,
        span: Span::new(0, 46),
        selection: Span::new(7, 11),
        children: vec![DocSymbol {
            name: "ActiveBody".into(),
            detail: Some("Body".into()),
            kind: SymKind::Module,
            span: Span::new(14, 41),
            selection: Span::new(21, 31),
            children: vec![],
        }],
    };
    let out = to_lsp_document_symbol(&rope, &symbol, PositionEnc::Utf16);
    assert_eq!(out.name, "Tank");
    assert_eq!(out.selection_range.start, at(0, 7));
    assert_eq!(out.children.len(), 1);
    assert_eq!(out.children[0].range.start, at(1, 2));
}
