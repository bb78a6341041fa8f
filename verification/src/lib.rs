pub mod dlx;
pub mod dlx_table;
pub mod dlx_table2;
pub mod exact_cover;
pub mod exact_cover2;
pub mod bool_cover_laws;
pub mod knapsack;
pub mod dlxc;
pub mod queens;
pub mod sudoku;
pub mod cnf_sat;
pub mod vertex_cover;
pub mod sorting;
pub mod naming;
pub mod test_cases;
pub mod dlx_items;
pub mod item_cover;
pub mod queens_dlx;
