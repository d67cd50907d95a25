use markdown_btree_core::engine::{slugify, MarkdownEngine};
use markdown_btree_core::MarkdownDB;

#[test]
fn slugify_lowercases_and_collapses_separators() {
    assert_eq!(slugify("Hello, World!"), "hello-world");
    assert_eq!(slugify("  --Rust  &  Verus--  "), "rust-verus");
    assert_eq!(slugify("Chapter 10: The End"), "chapter-10-the-end");
}

#[test]
fn slugify_falls_back_to_section() {
    assert_eq!(slugify(""), "section");
    assert_eq!(slugify("!!! ???"), "section");
    assert_eq!(slugify("日本語"), "section");
}

#[test]
fn slugify_drops_non_ascii_letters() {
    assert_eq!(slugify("Café au lait"), "caf-au-lait");
}

#[test]
fn markdown_heading_forms() {
    let doc = "#NoSpace\n####### Seven\n#\tTabbed\n   ## Indented  \n# \n";
    let engine = MarkdownEngine::new(doc);
    let roots = engine.ls("", 0, 0);
    assert_eq!(roots.items, vec!["tabbed".to_string()]);
    assert_eq!(roots.size, 20);
    assert_eq!(engine.read("tabbed"), Some("".to_string()));
    let kids = engine.ls("tabbed", 0, 20);
    assert_eq!(kids.items, vec!["tabbed/indented".to_string()]);
    assert_eq!(engine.get_title("tabbed/indented"), Some("Indented".to_string()));
    assert_eq!(engine.read("tabbed/indented"), Some("# ".to_string()));
}

#[test]
fn lines_before_first_heading_are_dropped() {
    let engine = MarkdownEngine::new("Preamble\n#NoSpace\n# Real\nBody");
    assert_eq!(engine.ls("", 0, 20).total, 1);
    assert_eq!(engine.read("real"), Some("Body".to_string()));
}

#[test]
fn html_heading_variants() {
    let doc = "<H2 class=\"x\">Upper Case</H2>\n<h7>No</h7>\n<h3></h3>\n<h1>Broken</h2>\n<h4>A</h4> tail";
    let engine = MarkdownEngine::new(doc);
    let roots = engine.ls("", 0, 20);
    assert_eq!(roots.items, vec!["upper-case".to_string()]);
    let kids = engine.ls("upper-case", 0, 20);
    assert_eq!(kids.items, vec!["upper-case/a".to_string()]);
    assert_eq!(
        engine.read("upper-case"),
        Some("<h7>No</h7>\n<h3></h3>\n<h1>Broken</h2>".to_string())
    );
}

#[test]
fn reference_definitions() {
    let doc = "# Doc\n  [a]:   http://x  \n[]: nothing\n[b]:\n[c] : spaced\n[d]:first\n[d]: second";
    let engine = MarkdownEngine::new(doc);
    assert_eq!(engine.get_reference("a"), Some("http://x".to_string()));
    assert_eq!(engine.get_reference("d"), Some("second".to_string()));
    assert_eq!(engine.get_reference("b"), None);
    assert_eq!(engine.get_reference("c"), None);
    assert_eq!(engine.get_reference(""), None);
    assert_eq!(
        engine.read("doc"),
        Some("[]: nothing\n[b]:\n[c] : spaced".to_string())
    );
}

#[test]
fn content_joins_lines_and_skips_leading_blanks() {
    let engine = MarkdownEngine::new("# A\r\n\r\nline one\r\n\r\nline two\n");
    assert_eq!(engine.read("a"), Some("line one\n\nline two".to_string()));
}

#[test]
fn heading_levels_build_the_tree() {
    let doc = "# A\n### Deep\n## Mid\n# B\n## Mid";
    let engine = MarkdownEngine::new(doc);
    assert_eq!(engine.ls("", 0, 20).items, vec!["a".to_string(), "b".to_string()]);
    assert_eq!(
        engine.ls("a", 0, 20).items,
        vec!["a/deep".to_string(), "a/mid".to_string()]
    );
    assert_eq!(engine.ls("b", 0, 20).items, vec!["b/mid".to_string()]);
    assert_eq!(engine.ls("a/deep", 0, 20).total, 0);
    assert_eq!(engine.ls("missing", 0, 20).total, 0);
}

#[test]
fn duplicate_roots_get_suffixes() {
    let doc = "# Same\n# Same\n# Same-1\n# Same";
    let engine = MarkdownEngine::new(doc);
    assert_eq!(
        engine.ls("", 0, 20).items,
        vec![
            "same".to_string(),
            "same-1".to_string(),
            "same-1-1".to_string(),
            "same-2".to_string()
        ]
    );
}

#[test]
fn read_full_includes_subsections() {
    let doc = "# Top\nIntro\n## Child\nChild text\n### Grand\nDeep text\n## Other\n";
    let engine = MarkdownEngine::new(doc);
    assert_eq!(
        engine.read_full("top"),
        Some("Intro\n## Child\nChild text\n### Grand\nDeep text\n## Other".to_string())
    );
    assert_eq!(
        engine.read_full("top/child/grand"),
        engine.read("top/child/grand")
    );
    assert_eq!(engine.read_full("nope"), None);
    assert_eq!(engine.read("nope"), None);
    assert_eq!(engine.get_title("nope"), None);
}

#[test]
fn read_full_of_empty_section_starts_with_heading() {
    let engine = MarkdownEngine::new("# Top\n## Child\ntext");
    assert_eq!(engine.read_full("top"), Some("## Child\ntext".to_string()));
}

#[test]
fn search_is_case_insensitive_and_sorted() {
    let doc = "# Zeta Guide\n# alpha guide\n## GUIDE to more\n# Other";
    let engine = MarkdownEngine::new(doc);
    let expected = vec![
        "alpha-guide".to_string(),
        "alpha-guide/guide-to-more".to_string(),
        "zeta-guide".to_string(),
    ];
    assert_eq!(engine.search("GuIdE"), expected);
    assert_eq!(engine.search("guide"), expected);
    assert_eq!(engine.search("nothing"), Vec::<String>::new());
    assert_eq!(engine.search("").len(), 4);
}

#[test]
fn pagination_edges() {
    let headings: String = (1..=5).map(|i| format!("# H{i}\n")).collect();
    let engine = MarkdownEngine::new(&headings);
    let p = engine.ls("", 1, 2);
    assert_eq!(p.items, vec!["h3".to_string(), "h4".to_string()]);
    assert_eq!(p.total, 5);
    let last = engine.ls("", 2, 2);
    assert_eq!(last.items, vec!["h5".to_string()]);
    let beyond = engine.ls("", 9, 2);
    assert!(beyond.items.is_empty());
    assert_eq!(beyond.total, 5);
    let huge = engine.ls("", usize::MAX, usize::MAX);
    assert!(huge.items.is_empty());
    let all = engine.ls("", 0, 0);
    assert_eq!(all.items.len(), 5);
    assert_eq!(all.size, 20);
}

#[test]
fn every_entry_is_on_its_page() {
    let headings: String = (1..=7).map(|i| format!("# N{i}\n")).collect();
    let engine = MarkdownEngine::new(&headings);
    let all = engine.ls("", 0, 100).items;
    for j in 0..all.len() {
        let page = engine.ls("", j / 3, 3);
        assert_eq!(page.items[j % 3], all[j]);
    }
}

#[test]
fn database_handle_forwards() {
    let db = MarkdownDB::new("# One\ntext\n## Two\n[r]: u");
    assert_eq!(db.ls("", 0, 20).items, vec!["one".to_string()]);
    assert_eq!(db.get_title("one/two"), Some("Two".to_string()));
    assert_eq!(db.read("one"), Some("text".to_string()));
    assert_eq!(db.read_full("one"), Some("text\n## Two".to_string()));
    assert_eq!(db.get_reference("r"), Some("u".to_string()));
    assert_eq!(db.search("TWO"), vec!["one/two".to_string()]);
}

#[test]
fn unicode_whitespace_is_trimmed() {
    let engine = MarkdownEngine::new("#\u{a0}Spaced Title\u{2003}\n\u{3000}body\u{3000}");
    assert_eq!(engine.get_title("spaced-title"), Some("Spaced Title".to_string()));
    assert_eq!(engine.read("spaced-title"), Some("\u{3000}body\u{3000}".to_string()));
}

#[test]
fn search_folds_unicode_case() {
    let engine = MarkdownEngine::new("# Étude\n# Other");
    assert_eq!(engine.search("étude"), vec!["tude".to_string()]);
    assert_eq!(engine.search("ÉTUDE"), vec!["tude".to_string()]);
    assert_eq!(engine.search("ΣΟΦΙΑ"), Vec::<String>::new());
    let greek = MarkdownEngine::new("# Σοφία");
    assert_eq!(greek.search("ΣΟΦΊΑ").len(), 1);
}

#[test]
fn search_folds_each_character_alone() {
    let engine = MarkdownEngine::new("# ΑΣΑ
# ΑΣ");
    assert_eq!(engine.search("ΑΣ").len(), 2);
    assert_eq!(engine.search("Σ").len(), 2);
    assert_eq!(engine.search("ας").len(), 0);
    assert_eq!(engine.search("ασ").len(), 2);
}

#[test]
fn empty_query_and_ascii_case_of_query() {
    let engine = MarkdownEngine::new("# Alpha
## Beta
# Gamma");
    assert_eq!(engine.search("").len(), 3);
    assert_eq!(engine.search("ALPHA"), engine.search("alpha"));
    assert_eq!(engine.search("aLpHa"), vec!["alpha".to_string()]);
}

#[test]
fn slugify_is_idempotent_and_ignores_ascii_case() {
    for title in ["Hello, World!", "--x--", "", "Ünïcode Tïtle 42", "a  b\tc"] {
        let s = slugify(title);
        assert_eq!(slugify(&s), s);
        assert_eq!(slugify(&title.to_ascii_uppercase()), s);
        assert_eq!(slugify(&title.to_ascii_lowercase()), s);
    }
}

#[test]
fn longer_query_finds_no_more() {
    let doc = "# Guide one\n# Guide two\n## Other guide\n# Unrelated";
    let engine = MarkdownEngine::new(doc);
    let wide = engine.search("guide");
    let narrow = engine.search("guide t");
    assert_eq!(narrow, vec!["guide-two".to_string()]);
    for p in &narrow {
        assert!(wide.contains(p));
    }
}

#[test]
fn pages_concatenate_to_listing() {
    let headings: String = (1..=8).map(|i| format!("# P{i}\n")).collect();
    let engine = MarkdownEngine::new(&headings);
    let all = engine.ls("", 0, 100).items;
    let size = 3;
    let count = (all.len() + size - 1) / size;
    let mut joined = Vec::new();
    for k in 0..count {
        let page = engine.ls("", k, size);
        if k + 1 < count {
            assert_eq!(page.items.len(), size);
        }
        joined.extend(page.items);
    }
    assert_eq!(joined, all);
    assert!(engine.ls("", count, size).items.is_empty());
    assert!(engine.ls("", count + 5, size).items.is_empty());
}

fn collect_listed(engine: &MarkdownEngine, path: &str, out: &mut Vec<String>) {
    for child in engine.ls(path, 0, 1000).items {
        out.push(child.clone());
        collect_listed(engine, &child, out);
    }
}

#[test]
fn every_section_is_listed_once() {
    let doc = "# A\n## B\n## B\n### C\n# A\n## B\n<h2>D</h2>\n# E";
    let engine = MarkdownEngine::new(doc);
    let mut listed = Vec::new();
    collect_listed(&engine, "", &mut listed);
    let mut all = engine.search("");
    assert_eq!(listed.len(), all.len());
    listed.sort();
    all.sort();
    assert_eq!(listed, all);
}
