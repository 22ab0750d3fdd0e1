use recipe_pipeline::elementaree::ElementareeRecipeParser;
use recipe_pipeline::recipe::{RecipeParser, Task};

const RECIPE_PAGE: &str = r#"<html><head><title>t</title></head><body>
<div>navigation</div>
<div><section>
  <div>breadcrumbs</div>
  <div><h2>  Борщ
     с   говядиной </h2></div>
  <div><div>
    <div><picture><img alt="dish" src="https://img.example.com/borscht.jpg"></picture></div>
    <div></div><div></div><div></div>
    <div><div><div>
      <p>Вам понадобится</p>
      <p>Для супа: salt (:5 g), картофель, морковь-1 шт</p>
      <p>На вашей кухне</p>
      <p>соль, перец</p>
      <p>Как готовить</p>
      <p>Нарежьте **свеклу** кубиками.</p>
      <p>затем   варите 20 минут.</p>
      <p>Подавайте горячим.</p>
      <p>Корректируйте время приготовления по вкусу</p>
    </div></div></div>
  </div></div>
</section></div>
</body></html>"#;

fn task(document: &str) -> Task {
    Task {
        id: 17,
        issue_id: 3,
        document_string: document.to_string(),
        url: "https://example.com/recipes/borscht".to_string(),
    }
}

#[test]
fn recipe_page_is_read() {
    let recipe = ElementareeRecipeParser::parse_recipe(&task(RECIPE_PAGE)).ok().unwrap().unwrap();
    assert_eq!(recipe.id, 17);
    assert_eq!(recipe.issue_id, 3);
    assert_eq!(recipe.url, "https://example.com/recipes/borscht");
    assert_eq!(recipe.title, "Борщ с говядиной");
    assert_eq!(recipe.image_url.as_deref(), Some("https://img.example.com/borscht.jpg"));
    let ingredients: Vec<(&str, &str, &str)> = recipe
        .ingredients
        .iter()
        .map(|i| (i.name.as_str(), i.unit.as_str(), i.amount.as_str()))
        .collect();
    assert_eq!(
        ingredients,
        vec![
            ("salt", "g", "5"),
            ("картофель", "none", "none"),
            ("морковь-1 шт", "none", "none"),
        ]
    );
    assert_eq!(
        recipe.steps,
        vec![
            "Нарежьте свеклу кубиками. затем варите 20 минут.".to_string(),
            "Подавайте горячим.".to_string(),
        ]
    );
}

#[test]
fn page_without_title_holds_no_recipe() {
    let page = RECIPE_PAGE.replace("<h2>", "<h3>").replace("</h2>", "</h3>");
    assert!(ElementareeRecipeParser::parse_recipe(&task(&page)).ok().unwrap().is_none());
}

#[test]
fn page_without_ingredients_holds_no_recipe() {
    let page = RECIPE_PAGE
        .replace("<p>Для супа: salt (:5 g), картофель, морковь-1 шт</p>", "")
        .replace("<p>Вам понадобится</p>", "<p>На вашей кухне</p>");
    assert!(ElementareeRecipeParser::parse_recipe(&task(&page)).ok().unwrap().is_none());
}

#[test]
fn page_without_steps_holds_no_recipe() {
    let page = RECIPE_PAGE.replace("<p>Как готовить</p>", "<p>Готово</p>");
    assert!(ElementareeRecipeParser::parse_recipe(&task(&page)).ok().unwrap().is_none());
}

#[test]
fn empty_document_holds_no_recipe() {
    assert!(ElementareeRecipeParser::parse_recipe(&task("")).ok().unwrap().is_none());
}

#[test]
fn parsing_error_text() {
    let e = recipe_pipeline::recipe::RecipeParsingError { error_desc: "boom".to_string() };
    assert_eq!(e.to_string(), "boom");
}
