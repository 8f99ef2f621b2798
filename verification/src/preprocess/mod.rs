pub mod binomial;
pub mod compression;
pub mod definitional;
pub mod independent;
pub mod saturation;
