//! A tableau ("big table") simplex solver over exact rational coefficients:
//! construction of the augmented matrix, feasibility restoration, and
//! objective optimisation through a shared Gauss-Jordan pivot transform.

pub mod grid;
pub mod rat;
pub mod tableau;

pub use rat::Rat;
pub use rat::Ratio;
pub use tableau::Label;
pub use tableau::SimplexError;
pub use tableau::Table;
