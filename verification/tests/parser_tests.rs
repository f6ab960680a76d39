use nxalyzer::parser::{strip_comments, Parser};

#[test]
fn test_extract_single_named_import() {
    let content = r#"import { Foo } from './foo';"#;
    let root_path = "/project";
    let file_path = "/project/src/bar.ts";

    let parser = Parser::new(root_path);
    let imports = parser.extract_imports(content, file_path);

    assert_eq!(imports.len(), 1);
    assert_eq!(imports[0].name, "Foo");
    assert!(imports[0].path.contains("foo"));
}

#[test]
fn test_extract_multiple_named_imports() {
    let content = r#"import { Foo, Bar, Baz } from './utils';"#;
    let root_path = "/project";
    let file_path = "/project/src/index.ts";

    let parser = Parser::new(root_path);
    let imports = parser.extract_imports(content, file_path);

    assert_eq!(imports.len(), 3);
    assert_eq!(imports[0].name, "Foo");
    assert_eq!(imports[1].name, "Bar");
    assert_eq!(imports[2].name, "Baz");
}

#[test]
fn test_extract_multiline_named_imports() {
    let content = "import {\n  Foo,\n  Bar,\n  Baz\n} from './utils';";
    let root_path = "/project";
    let file_path = "/project/src/index.ts";

    let parser = Parser::new(root_path);
    let imports = parser.extract_imports(content, file_path);

    assert_eq!(imports.len(), 3);
    assert_eq!(imports[0].name, "Foo");
    assert_eq!(imports[1].name, "Bar");
    assert_eq!(imports[2].name, "Baz");
}

#[test]
fn test_extract_aliased_import() {
    let content = r#"import { Foo as F, Bar as B } from './utils';"#;
    let root_path = "/project";
    let file_path = "/project/src/index.ts";

    let parser = Parser::new(root_path);
    let imports = parser.extract_imports(content, file_path);

    assert_eq!(imports.len(), 2);
    assert_eq!(imports[0].name, "Foo");
    assert_eq!(imports[1].name, "Bar");
}

#[test]
fn test_extract_default_import() {
    let content = r#"import Foo from './foo';"#;
    let root_path = "/project";
    let file_path = "/project/src/bar.ts";

    let parser = Parser::new(root_path);
    let imports = parser.extract_imports(content, file_path);

    assert_eq!(imports.len(), 1);
    assert_eq!(imports[0].name, "Foo");
}

#[test]
fn test_extract_awork_alias_import() {
    let content = r#"import { Model } from '@awork/models';"#;
    let root_path = "/project";
    let file_path = "/project/apps/web/src/index.ts";

    let parser = Parser::new(root_path);
    let imports = parser.extract_imports(content, file_path);

    assert_eq!(imports.len(), 1);
    assert_eq!(imports[0].name, "Model");
    assert!(imports[0].path.contains("libs/shared/src/lib"));
    assert!(imports[0].path.contains("models"));
    assert!(!imports[0].path.contains("@awork"));
}

#[test]
fn test_skip_external_package_imports() {
    let content = "import { useState } from 'react';\nimport { Observable } from 'rxjs';\nimport { Foo } from './local';";
    let root_path = "/project";
    let file_path = "/project/src/index.ts";

    let parser = Parser::new(root_path);
    let imports = parser.extract_imports(content, file_path);

    assert_eq!(imports.len(), 1);
    assert_eq!(imports[0].name, "Foo");
}

#[test]
fn test_extract_multiple_import_statements() {
    let content = "import { Foo } from './foo';\nimport { Bar, Baz } from './bar';\nimport Default from './default';";
    let root_path = "/project";
    let file_path = "/project/src/index.ts";

    let parser = Parser::new(root_path);
    let imports = parser.extract_imports(content, file_path);

    assert_eq!(imports.len(), 4);
    assert_eq!(imports[0].name, "Foo");
    assert_eq!(imports[1].name, "Bar");
    assert_eq!(imports[2].name, "Baz");
    assert_eq!(imports[3].name, "Default");
}

#[test]
fn test_extract_relative_parent_path_import() {
    let content = r#"import { Util } from '../utils/helper';"#;
    let root_path = "/project";
    let file_path = "/project/src/components/button.ts";

    let parser = Parser::new(root_path);
    let imports = parser.extract_imports(content, file_path);

    assert_eq!(imports.len(), 1);
    assert_eq!(imports[0].name, "Util");
    assert!(imports[0].path.contains("utils"));
    assert!(imports[0].path.contains("helper"));
}

#[test]
fn test_import_path_gets_ts_extension() {
    let content = r#"import { Foo } from './foo';"#;
    let root_path = "/project";
    let file_path = "/project/src/bar.ts";

    let parser = Parser::new(root_path);
    let imports = parser.extract_imports(content, file_path);

    assert_eq!(imports.len(), 1);
    assert!(imports[0].path.ends_with(".ts"));
}

#[test]
fn test_multiline_import_with_trailing_comma() {
    let content = "import {\n  Foo,\n  Bar,\n} from './utils';";
    let root_path = "/project";
    let file_path = "/project/src/index.ts";

    let parser = Parser::new(root_path);
    let imports = parser.extract_imports(content, file_path);

    assert_eq!(imports.len(), 2);
    assert_eq!(imports[0].name, "Foo");
    assert_eq!(imports[1].name, "Bar");
}

#[test]
fn test_import_info_has_id() {
    let content = r#"import { Foo } from './foo';"#;
    let root_path = "/project";
    let file_path = "/project/src/bar.ts";

    let parser = Parser::new(root_path);
    let imports = parser.extract_imports(content, file_path);

    assert_eq!(imports.len(), 1);
    assert!(!imports[0].id.is_empty());
}

#[test]
fn test_strip_single_line_comment() {
    let content = "const a = 1; // this is a comment\nconst b = 2;";
    let result = strip_comments(content);
    assert_eq!(result, "const a = 1; \nconst b = 2;");
}

#[test]
fn test_strip_multiline_comment() {
    let content = "const a = 1; /* this is\na multiline\ncomment */ const b = 2;";
    let result = strip_comments(content);
    assert_eq!(result, "const a = 1;  const b = 2;");
}

#[test]
fn test_strip_full_line_comment() {
    let content = "// full line comment\nconst a = 1;";
    let result = strip_comments(content);
    assert_eq!(result, "\nconst a = 1;");
}

#[test]
fn test_preserve_string_with_comment_like_content() {
    let content = r#"const a = "// not a comment";"#;
    let result = strip_comments(content);
    assert_eq!(result, r#"const a = "// not a comment";"#);
}

#[test]
fn test_preserve_string_with_multiline_comment_like_content() {
    let content = r#"const a = "/* not a comment */";"#;
    let result = strip_comments(content);
    assert_eq!(result, r#"const a = "/* not a comment */";"#);
}

#[test]
fn test_skip_commented_import() {
    let content = "// import { Foo } from './foo';\nimport { Bar } from './bar';";
    let root_path = "/project";
    let file_path = "/project/src/index.ts";

    let parser = Parser::new(root_path);
    let imports = parser.extract_imports(content, file_path);

    assert_eq!(imports.len(), 1);
    assert_eq!(imports[0].name, "Bar");
}

#[test]
fn test_skip_multiline_commented_import() {
    let content = "/* import { Foo } from './foo'; */\nimport { Bar } from './bar';";
    let root_path = "/project";
    let file_path = "/project/src/index.ts";

    let parser = Parser::new(root_path);
    let imports = parser.extract_imports(content, file_path);

    assert_eq!(imports.len(), 1);
    assert_eq!(imports[0].name, "Bar");
}

#[test]
fn test_skip_import_inside_multiline_comment() {
    let content = "/*\nimport { Foo } from './foo';\nimport { Baz } from './baz';\n*/\nimport { Bar } from './bar';";
    let root_path = "/project";
    let file_path = "/project/src/index.ts";

    let parser = Parser::new(root_path);
    let imports = parser.extract_imports(content, file_path);

    assert_eq!(imports.len(), 1);
    assert_eq!(imports[0].name, "Bar");
}

#[test]
fn test_extract_angular_lazy_loaded_import() {
    let content = "const routes: Routes = [\n    {\n        path: 'auth',\n        loadChildren: () => import('./auth/auth.module').then(m => m.AuthModule)\n    }\n];";
    let root_path = "/project";
    let file_path = "/project/src/app-routing.module.ts";

    let parser = Parser::new(root_path);
    let imports = parser.extract_imports(content, file_path);

    assert_eq!(imports.len(), 1);
    assert_eq!(imports[0].name, "AuthModule");
    assert!(imports[0].path.contains("auth/auth.module"));
}

#[test]
fn test_extract_multiple_angular_lazy_loaded_imports() {
    let content = "const routes: Routes = [\n    {\n        path: 'auth',\n        loadChildren: () => import('./auth/auth.module').then(m => m.AuthModule)\n    },\n    {\n        path: 'dashboard',\n        loadChildren: () => import('./dashboard/dashboard.module').then(mod => mod.DashboardModule)\n    }\n];";
    let root_path = "/project";
    let file_path = "/project/src/app-routing.module.ts";

    let parser = Parser::new(root_path);
    let imports = parser.extract_imports(content, file_path);

    assert_eq!(imports.len(), 2);
    assert_eq!(imports[0].name, "AuthModule");
    assert_eq!(imports[1].name, "DashboardModule");
}

#[test]
fn test_extract_lazy_import_with_different_param_names() {
    let content = r#"loadChildren: () => import('./users/users.module').then(module => module.UsersModule)"#;
    let root_path = "/project";
    let file_path = "/project/src/app-routing.module.ts";

    let parser = Parser::new(root_path);
    let imports = parser.extract_imports(content, file_path);

    assert_eq!(imports.len(), 1);
    assert_eq!(imports[0].name, "UsersModule");
}

#[test]
fn test_parse_detects_export_kinds() {
    let content = "export class Widget {}\nexport enum Color { Red }\nexport interface Shape {}\nexport function makeWidget() {}\nexport const LIMIT = 10;\nexport const onClick = () => {};";
    let parser = Parser::new("/project");
    let result = parser.parse(content, "/project/src/widget.ts");

    let names: Vec<&str> = result.entities.iter().map(|e| e.name.as_str()).collect();
    assert_eq!(
        names,
        vec!["Widget", "Color", "Shape", "makeWidget", "LIMIT", "onClick"]
    );
    assert!(matches!(result.entities[0].entity_type, nxalyzer::entity::EntityType::Class));
    assert!(matches!(result.entities[1].entity_type, nxalyzer::entity::EntityType::Enum));
    assert!(matches!(result.entities[2].entity_type, nxalyzer::entity::EntityType::Interface));
    assert!(matches!(result.entities[3].entity_type, nxalyzer::entity::EntityType::Function));
    assert!(matches!(result.entities[4].entity_type, nxalyzer::entity::EntityType::Const));
    assert!(matches!(result.entities[5].entity_type, nxalyzer::entity::EntityType::Function));
}

#[test]
fn test_parse_marks_locally_used_entity() {
    let content = "export class Widget {}\nconst w = new Widget();";
    let parser = Parser::new("/project");
    let result = parser.parse(content, "/project/src/widget.ts");

    assert_eq!(result.entities.len(), 1);
    assert!(result.entities[0].used);
}

#[test]
fn test_parse_unused_entity_not_marked() {
    let content = "export class Widget {}";
    let parser = Parser::new("/project");
    let result = parser.parse(content, "/project/src/widget.ts");

    assert_eq!(result.entities.len(), 1);
    assert!(!result.entities[0].used);
}

#[test]
fn test_strip_keeps_trailing_slash() {
    assert_eq!(strip_comments("a /"), "a /");
    assert_eq!(strip_comments("a / b"), "a / b");
}

#[test]
fn test_strip_unterminated_block_comment_drops_rest() {
    assert_eq!(strip_comments("a /* never closed"), "a ");
}

#[test]
fn test_strip_escaped_quote_stays_in_string() {
    assert_eq!(strip_comments("const a = \"x\\\" // y\";"), "const a = \"x\\\" // y\";");
}
