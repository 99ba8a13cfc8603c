pub mod antennas;
pub mod calibration;
pub mod claw;
pub mod coords;
pub mod garden;
pub mod garden_sides;
pub mod grid;
pub mod lists;
pub mod mul_program;
pub mod page_order;
pub mod patrol;
pub mod reports;
pub mod robots;
pub mod stones;
pub mod warehouse;
pub mod word_search;
