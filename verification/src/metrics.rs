pub mod amap_metrics;
