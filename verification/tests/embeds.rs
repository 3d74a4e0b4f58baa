use rewatch::build_types::{Embed, Module, SourceType};
use rewatch::embeds::{
    embed_action, generated_file_contents, generator_failure, register_embed, set_embeds, EmbedGenerator,
};

fn generators() -> Vec<EmbedGenerator> {
    vec![
        EmbedGenerator { path: "gen/sql".to_string(), tags: vec!["sql".to_string(), "pg".to_string()] },
        EmbedGenerator { path: "gen/other".to_string(), tags: vec!["pg".to_string()] },
    ]
}

#[test]
fn embeds_run_the_first_generator_of_their_tag() {
    let g = generators();
    let up_to_date = embed_action(&g, &"sql".to_string(), &"select 1".to_string(), false);
    assert_eq!(up_to_date, Ok(None));
    assert_eq!(
        embed_action(&g, &"pg".to_string(), &"select 2".to_string(), true),
        Ok(Some(("gen/sql".to_string(), "pg\nselect 2".to_string())))
    );
    assert_eq!(
        embed_action(&g, &"graphql".to_string(), &"{ a }".to_string(), true),
        Err("No embed generator found for tag: graphql".to_string())
    );
}

#[test]
fn generated_files_start_with_their_hash() {
    assert_eq!(generated_file_contents("abc", "let x = 1\n"), "// HASH: abc\nlet x = 1\n");
    assert_eq!(generator_failure("boom"), "Embed generator failed: boom");
}

#[test]
fn generated_files_join_the_build() {
    let mut modules: ahash::AHashMap<String, Module> = ahash::AHashMap::new();
    let mut names: ahash::AHashSet<String> = ahash::AHashSet::new();
    register_embed(&mut modules, &mut names, "Gen".to_string(), &"src/__generated__/Gen.res".to_string(), 5, false, &"pkg".to_string());
    assert!(names.contains("Gen"));
    let parse_dirty = |m: &Module| match &m.source_type {
        SourceType::SourceFile(sf) => sf.implementation.parse_dirty,
        SourceType::MlMap(_) => panic!("a source module was expected"),
    };
    assert!(parse_dirty(&modules["Gen"]));
    if let SourceType::SourceFile(sf) = &mut modules.get_mut("Gen").unwrap().source_type {
        sf.implementation.parse_dirty = false;
    }
    register_embed(&mut modules, &mut names, "Gen".to_string(), &"src/__generated__/Gen.res".to_string(), 6, false, &"pkg".to_string());
    assert!(!parse_dirty(&modules["Gen"]));
    register_embed(&mut modules, &mut names, "Gen".to_string(), &"src/__generated__/Gen.res".to_string(), 7, true, &"pkg".to_string());
    assert!(parse_dirty(&modules["Gen"]));
    assert_eq!(modules.len(), 1);
}

fn embed(tag: &str) -> Embed {
    Embed {
        tag: tag.to_string(),
        filename: format!("{}.res", tag),
        contents: "x".to_string(),
        hash: "h".to_string(),
        dirty: false,
    }
}

#[test]
fn failed_embeds_are_left_out() {
    let mut modules: ahash::AHashMap<String, Module> = ahash::AHashMap::new();
    let mut names: ahash::AHashSet<String> = ahash::AHashSet::new();
    register_embed(&mut modules, &mut names, "A".to_string(), &"src/A.res".to_string(), 1, false, &"pkg".to_string());
    set_embeds(
        &mut modules,
        &"A".to_string(),
        vec![Ok(embed("sql")), Err("Embed generator failed: boom".to_string()), Ok(embed("pg"))],
    );
    match &modules["A"].source_type {
        SourceType::SourceFile(sf) => {
            let tags: Vec<&str> = sf.embeds.iter().map(|e| e.tag.as_str()).collect();
            assert_eq!(tags, vec!["sql", "pg"]);
        }
        SourceType::MlMap(_) => panic!("a source module was expected"),
    }
    set_embeds(&mut modules, &"Missing".to_string(), vec![Ok(embed("sql"))]);
    assert_eq!(modules.len(), 1);
}
