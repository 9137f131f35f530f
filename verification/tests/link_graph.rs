//! Tests of the vault link graph.

use vaultiel::graph::link_graph::{extract_links_with_context, normalize_target, LinkGraph, NoteSource};
use vaultiel::str_map::StrMap;
use vaultiel::types::LinkContext;

fn note(path: &str, content: &str) -> NoteSource {
    NoteSource { path: path.to_string(), loaded: Ok(content.to_string()) }
}

fn create_test_vault() -> Vec<NoteSource> {
    vec![
        note(
            "Note A.md",
            "---\ntitle: Note A\naliases:\n  - alias-a\n---\n\n# Note A\n\nLinks to [[Note B]] and [[Note C#heading]].\n",
        ),
        note(
            "Note B.md",
            "---\ntitle: Note B\nparent: \"[[Note A]]\"\n---\n\n# Note B\n\nLinks back to [[alias-a]].\n\n- [ ] Task with [[Note A]] link\n",
        ),
        note("Note C.md", "# Note C\n\nNo links here.\n\n## heading\n\nSome content.\n"),
    ]
}

#[test]
fn test_build_link_graph() {
    let vault = create_test_vault();
    let graph = LinkGraph::build(&vault);

    let outgoing = graph.get_outgoing("Note A.md");
    assert_eq!(outgoing.len(), 2);
    assert!(outgoing.iter().any(|l| l.link.target == "Note B"));
    assert!(outgoing.iter().any(|l| l.link.target == "Note C"));
}

#[test]
fn test_incoming_links() {
    let vault = create_test_vault();
    let graph = LinkGraph::build(&vault);

    let incoming = graph.get_incoming("Note A.md");
    assert!(incoming.len() >= 1);
    assert!(incoming.iter().any(|l| l.from == "Note B.md"));
}

#[test]
fn test_alias_resolution() {
    let vault = create_test_vault();
    let graph = LinkGraph::build(&vault);

    let resolved = graph.resolve_alias("alias-a");
    assert_eq!(resolved, Some(&"Note A.md".to_string()));
}

#[test]
fn test_task_context() {
    let vault = create_test_vault();
    let graph = LinkGraph::build(&vault);

    let outgoing = graph.get_outgoing("Note B.md");
    let task_links: Vec<_> = outgoing.iter().filter(|l| matches!(l.context, LinkContext::Task)).collect();
    assert_eq!(task_links.len(), 1);
}

#[test]
fn test_frontmatter_context() {
    let vault = create_test_vault();
    let graph = LinkGraph::build(&vault);

    let outgoing = graph.get_outgoing("Note B.md");
    let fm_links: Vec<_> =
        outgoing.iter().filter(|l| matches!(l.context, LinkContext::FrontmatterScalar { .. })).collect();
    assert_eq!(fm_links.len(), 1);
}

#[test]
fn resolved_paths_and_incoming_via_alias() {
    let vault = create_test_vault();
    let graph = LinkGraph::build(&vault);

    let out_b = graph.get_outgoing("Note B.md");
    assert_eq!(out_b.len(), 4);
    assert!(out_b.iter().all(|l| l.resolved_path == Some("Note A.md".to_string())));

    // the link through the alias is stored under the alias, not the note
    let incoming = graph.get_incoming("Note A.md");
    assert_eq!(incoming.len(), 3);
    assert_eq!(incoming[0].link.line, 0);
    assert!(incoming.iter().all(|l| l.from == "Note B.md"));

    let into_c = graph.get_incoming("Note C.md");
    assert_eq!(into_c.len(), 1);
    assert_eq!(into_c[0].link.heading, Some("heading".to_string()));
}

#[test]
fn unknown_note_and_unreadable_note() {
    let mut vault = create_test_vault();
    vault.push(NoteSource { path: "Broken.md".to_string(), loaded: Err("io".to_string()) });
    let graph = LinkGraph::build(&vault);
    assert!(graph.get_outgoing("Missing.md").is_empty());
    assert!(graph.get_outgoing("Broken.md").is_empty());
    assert!(graph.get_incoming("Missing.md").is_empty());
    assert_eq!(graph.resolve_alias("nobody"), None);
}

#[test]
fn context_of_inline_property_and_list_links() {
    let notes = vec!["Target.md".to_string()];
    let aliases: StrMap<String> = StrMap::new();
    let content = "---\nrelated:\n  - \"[[Target]]\"\n---\nSee [up::[[Target]]] and [[Missing]].";
    let infos = extract_links_with_context(content, &notes, &aliases);
    assert_eq!(infos.len(), 4);
    assert_eq!(infos[0].context, LinkContext::Body);
    assert_eq!(infos[0].link.line, 3);
    assert_eq!(infos[1].context, LinkContext::Inline { key: "up".to_string() });
    assert_eq!(infos[2].context, LinkContext::Body);
    assert_eq!(infos[2].resolved_path, None);
    assert_eq!(infos[3].context, LinkContext::FrontmatterList { key: "related".to_string(), index: 0 });
    assert_eq!(infos[3].link.line, 0);
    assert_eq!(infos[3].resolved_path, Some("Target.md".to_string()));
}

#[test]
fn normalize_target_strips_md_and_lowercases() {
    assert_eq!(normalize_target("Folder/Note.md"), "folder/note");
    assert_eq!(normalize_target("Plain"), "plain");
}
