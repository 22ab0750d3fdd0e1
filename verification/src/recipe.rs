use vstd::prelude::*;

verus! {

/// Why a page could not be turned into a recipe.
pub struct RecipeParsingError {
    pub error_desc: String,
}

impl RecipeParsingError {
    /// The text shown for this error.
    pub fn to_string(&self) -> (r: String)
        ensures
            r@ == self.error_desc@,
    {
        self.error_desc.clone()
    }
}

/// One ingredient line of a recipe. Ingredients given without an amount have
/// `"none"` as unit and amount.
pub struct Ingredient {
    pub name: String,
    pub unit: String,
    pub amount: String,
}

/// The view of an `Ingredient`.
pub struct IngredientView {
    pub name: Seq<char>,
    pub unit: Seq<char>,
    pub amount: Seq<char>,
}

impl View for Ingredient {
    type V = IngredientView;

    open spec fn view(&self) -> IngredientView {
        IngredientView { name: self.name@, unit: self.unit@, amount: self.amount@ }
    }
}

/// A recipe extracted from a page.
pub struct Recipe {
    pub id: u64,
    pub issue_id: u64,
    pub url: String,
    pub title: String,
    pub ingredients: Vec<Ingredient>,
    pub steps: Vec<String>,
    pub image_url: Option<String>,
}

/// The view of a `Recipe`.
pub struct RecipeView {
    pub id: u64,
    pub issue_id: u64,
    pub url: Seq<char>,
    pub title: Seq<char>,
    pub ingredients: Seq<IngredientView>,
    pub steps: Seq<Seq<char>>,
    pub image_url: Option<Seq<char>>,
}

/// The views of a sequence of strings.
pub open spec fn strings_view(v: Seq<String>) -> Seq<Seq<char>> {
    v.map_values(|s: String| s@)
}

/// The views of a sequence of ingredients.
pub open spec fn ingredients_view(v: Seq<Ingredient>) -> Seq<IngredientView> {
    v.map_values(|i: Ingredient| i@)
}

impl View for Recipe {
    type V = RecipeView;

    open spec fn view(&self) -> RecipeView {
        RecipeView {
            id: self.id,
            issue_id: self.issue_id,
            url: self.url@,
            title: self.title@,
            ingredients: ingredients_view(self.ingredients@),
            steps: strings_view(self.steps@),
            image_url: match self.image_url {
                Some(s) => Some(s@),
                None => None,
            },
        }
    }
}

/// A downloaded page waiting to be parsed.
pub struct Task {
    pub id: u64,
    pub issue_id: u64,
    pub document_string: String,
    pub url: String,
}

/// Turns a downloaded page into a recipe, `Ok(None)` when the page holds none.
pub trait RecipeParser {
    fn parse_recipe(task: &Task) -> Result<Option<Recipe>, RecipeParsingError>;
}

} // verus!
