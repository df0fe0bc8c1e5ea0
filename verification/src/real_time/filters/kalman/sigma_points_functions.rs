pub mod julier;
