//! Conversion between case styles, and the test whether a text is in one.

pub mod case;

pub use case::camel::is_camel_case;
pub use case::camel::to_camel_case;

pub use case::pascal::is_pascal_case;
pub use case::pascal::to_pascal_case;

pub use case::snake::is_snake_case;
pub use case::snake::to_snake_case;

pub use case::screaming_snake::is_screaming_snake_case;
pub use case::screaming_snake::to_screaming_snake_case;

pub use case::kebab::is_kebab_case;
pub use case::kebab::to_kebab_case;

pub use case::train::is_train_case;
pub use case::train::to_train_case;
